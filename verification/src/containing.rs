//! The containing operator: extents of the first operand that enclose
//! an extent of the second.
//!
//! Akin to finding haystacks with needles in them.  Its view is the
//! first child's view filtered to the extents that enclose some
//! second-child extent.

use vstd::prelude::*;

use crate::algebra::Algebra;
use crate::extent::{valid_extent, Extent, ValidExtent};
use crate::filtered::{
    covers, covers_pred, lemma_filter_gc, lemma_filter_rho_found, lemma_filter_rho_none,
    lemma_filter_rho_prime_found, lemma_filter_rho_prime_none, lemma_filter_subset,
    lemma_filter_tau_none, lemma_filter_tau_prime_none, lemma_tau_prime_rho_prime_align,
    lemma_tau_rho_align,
};
use crate::gclist::{
    bwd_key, first_end_geq, first_start_geq, fwd_key, gc_list, last_end_leq, last_start_leq,
    lemma_first_end_geq_char, lemma_first_start_geq_char, lemma_last_end_leq_char,
    lemma_last_start_leq_char,
};
use crate::position::Position;

verus! {

/// The view a containing operator denotes: the first list filtered to
/// the extents that enclose something of the second list.
pub open spec fn containing_view(av: Seq<ValidExtent>, bv: Seq<ValidExtent>) -> Seq<ValidExtent> {
    av.filter(covers_pred(bv))
}

/// Finds extents from the first list that contain extents from the
/// second list.
#[derive(Debug, Copy, Clone)]
pub struct Containing<A, B> where A: Algebra, B: Algebra {
    a: A,
    b: B,
}

impl<A, B> Containing<A, B> where A: Algebra, B: Algebra {
    /// Composes the operator; well-formed children make it well-formed,
    /// and its view is the filtered view of the first child.
    pub fn new(a: A, b: B) -> (r: Self)
        ensures
            a.inv() && b.inv() ==> r.inv(),
            r.extents() == containing_view(a.extents(), b.extents()),
    {
        Containing { a, b }
    }
}

impl<A, B> Algebra for Containing<A, B> where A: Algebra, B: Algebra {
    closed spec fn extents(&self) -> Seq<ValidExtent> {
        containing_view(self.a.extents(), self.b.extents())
    }

    closed spec fn inv(&self) -> bool {
        self.a.inv() && self.b.inv()
    }

    proof fn lemma_extents_gc(&self) {
        self.a.lemma_extents_gc();
        lemma_filter_gc(self.a.extents(), covers_pred(self.b.extents()));
    }

    fn tau(&self, k: Position) -> (r: Extent) {
        let ghost av = self.a.extents();
        let ghost bv = self.b.extents();
        let ghost fv = self.extents();
        proof {
            self.a.lemma_extents_gc();
            self.b.lemma_extents_gc();
        }
        if let Position::PositiveInfinity = k {
            return Extent(Position::PositiveInfinity, Position::PositiveInfinity);
        }
        let r0 = self.a.tau(k);
        let ghost ia = first_start_geq(av, fwd_key(k));
        proof {
            lemma_first_start_geq_char(av, fwd_key(k));
        }
        if !r0.is_valid() {
            // no extent of `a` starts at or after k, so none of the view does
            proof {
                lemma_filter_tau_none(av, covers_pred(bv), k);
            }
            return Extent(Position::PositiveInfinity, Position::PositiveInfinity);
        }
        let (_p, q) = r0.unwrap();
        proof {
            assert(ia < av.len() && av[ia] == (_p, q));
            lemma_filter_subset(av, covers_pred(bv));
            lemma_filter_gc(av, covers_pred(bv));
            assert forall|j: int| 0 <= j < fv.len() implies (((#[trigger] fv[j]).0 >= fwd_key(
                k,
            )) <==> (fv[j].1 >= fwd_key(Position::Valid(q)))) by {
                let m = choose|m: int| 0 <= m < av.len() && av[m] == fv[j];
                assert(av.contains(fv[j]));
                if m >= ia {
                    assert(av[m].0 >= av[ia].0 && av[m].1 >= av[ia].1);
                } else {
                    assert(av[m].0 < fwd_key(k) && av[m].1 < av[ia].1);
                }
            }
            lemma_tau_rho_align(fv, k, Position::Valid(q));
        }
        self.rho(Position::Valid(q))
    }

    fn tau_prime(&self, k: Position) -> (r: Extent) {
        let ghost av = self.a.extents();
        let ghost bv = self.b.extents();
        let ghost fv = self.extents();
        proof {
            self.a.lemma_extents_gc();
            self.b.lemma_extents_gc();
        }
        if let Position::NegativeInfinity = k {
            return Extent(Position::NegativeInfinity, Position::NegativeInfinity);
        }
        let r0 = self.a.tau_prime(k);
        let ghost ia = last_end_leq(av, bwd_key(k));
        proof {
            lemma_last_end_leq_char(av, bwd_key(k));
        }
        if !r0.is_valid() {
            proof {
                lemma_filter_tau_prime_none(av, covers_pred(bv), k);
            }
            return Extent(Position::NegativeInfinity, Position::NegativeInfinity);
        }
        let (p, _q) = r0.unwrap();
        proof {
            assert(ia >= 0 && av[ia] == (p, _q));
            lemma_filter_subset(av, covers_pred(bv));
            lemma_filter_gc(av, covers_pred(bv));
            assert forall|j: int| 0 <= j < fv.len() implies (((#[trigger] fv[j]).1 <= bwd_key(
                k,
            )) <==> (fv[j].0 <= bwd_key(Position::Valid(p)))) by {
                let m = choose|m: int| 0 <= m < av.len() && av[m] == fv[j];
                assert(av.contains(fv[j]));
                if m <= ia {
                    assert(av[m].1 <= av[ia].1 && av[m].0 <= av[ia].0);
                } else {
                    assert(av[m].1 > bwd_key(k) && av[m].0 > av[ia].0);
                }
            }
            lemma_tau_prime_rho_prime_align(fv, k, Position::Valid(p));
        }
        self.rho_prime(Position::Valid(p))
    }

    fn rho(&self, k: Position) -> (r: Extent) {
        let ghost av = self.a.extents();
        let ghost bv = self.b.extents();
        proof {
            self.a.lemma_extents_gc();
            self.b.lemma_extents_gc();
        }
        let mut cur = k;
        loop
            invariant
                self.a.inv(),
                self.b.inv(),
                av == self.a.extents(),
                bv == self.b.extents(),
                gc_list(av),
                gc_list(bv),
                fwd_key(k) <= fwd_key(cur),
                k is PositiveInfinity ==> cur is PositiveInfinity,
                !(k is PositiveInfinity) ==> forall|j: int|
                    0 <= j < av.len() && (#[trigger] av[j]).1 >= fwd_key(k) && (cur
                        is PositiveInfinity || av[j].1 < fwd_key(cur)) ==> !covers(bv, av[j]),
            decreases
                    (if cur is PositiveInfinity {
                        0int
                    } else {
                        av.len() - first_end_geq(av, fwd_key(cur))
                    }),
        {
            if let Position::PositiveInfinity = cur {
                proof {
                    if !(k is PositiveInfinity) {
                        lemma_filter_rho_none(av, covers_pred(bv), k);
                    }
                }
                return Extent(Position::PositiveInfinity, Position::PositiveInfinity);
            }
            let r0 = self.a.rho(cur);
            let ghost i = first_end_geq(av, fwd_key(cur));
            proof {
                lemma_first_end_geq_char(av, fwd_key(cur));
            }
            if !r0.is_valid() {
                // nothing of `a` ends at or after the cursor, so the
                // window covers every remaining candidate
                proof {
                    assert(i == av.len());
                    lemma_filter_rho_none(av, covers_pred(bv), k);
                }
                return Extent(Position::PositiveInfinity, Position::PositiveInfinity);
            }
            let (p0, q0) = r0.unwrap();
            proof {
                assert(i < av.len() && av[i] == (p0, q0));
            }
            let r1 = self.b.tau(Position::Valid(p0));
            let ghost mi = first_start_geq(bv, p0);
            proof {
                lemma_first_start_geq_char(bv, p0);
            }
            if r1.1.le(Position::Valid(q0)) {
                // the first needle starting past p0 already ends by q0:
                // this haystack encloses it
                proof {
                    assert(mi < bv.len() && bv[mi] == r1.spec_unwrap());
                    assert(covers(bv, av[i]));
                    lemma_filter_rho_found(av, covers_pred(bv), k, i);
                }
                return r0;
            } else {
                // no haystack ending before the candidate needle's end
                // encloses anything: advance the cursor there
                let ghost oldcur = cur;
                cur = r1.1;
                proof {
                    assert forall|j: int|
                        0 <= j < av.len() && (#[trigger] av[j]).1 >= fwd_key(k) && (cur
                            is PositiveInfinity || av[j].1 < fwd_key(cur)) implies !covers(
                        bv,
                        av[j],
                    ) by {
                        if av[j].1 >= fwd_key(oldcur) {
                            assert(j >= i);
                            assert(av[j].0 >= p0);
                            if covers(bv, av[j]) {
                                let m = choose|m: int|
                                    0 <= m < bv.len() && av[j].0 <= bv[m].0 && bv[m].1 <= av[j].1;
                                assert(bv[m].0 >= p0);
                                assert(m >= mi);
                                assert(mi < bv.len());
                                assert(bv[m].1 >= bv[mi].1);
                                assert(r1 == valid_extent(bv[mi]));
                                assert(false);
                            }
                        }
                    }
                    if !(cur is PositiveInfinity) {
                        let f2 = first_end_geq(av, fwd_key(cur));
                        lemma_first_end_geq_char(av, fwd_key(cur));
                        assert(av[i].1 < fwd_key(cur));
                        assert(f2 > i);
                    }
                }
            }
        }
    }

    fn rho_prime(&self, k: Position) -> (r: Extent) {
        let ghost av = self.a.extents();
        let ghost bv = self.b.extents();
        proof {
            self.a.lemma_extents_gc();
            self.b.lemma_extents_gc();
        }
        let mut cur = k;
        loop
            invariant
                self.a.inv(),
                self.b.inv(),
                av == self.a.extents(),
                bv == self.b.extents(),
                gc_list(av),
                gc_list(bv),
                bwd_key(cur) <= bwd_key(k),
                k is NegativeInfinity ==> cur is NegativeInfinity,
                !(k is NegativeInfinity) ==> forall|j: int|
                    0 <= j < av.len() && (#[trigger] av[j]).0 <= bwd_key(k) && (cur
                        is NegativeInfinity || av[j].0 > bwd_key(cur)) ==> !covers(bv, av[j]),
            decreases
                    (if cur is NegativeInfinity {
                        0int
                    } else {
                        last_start_leq(av, bwd_key(cur)) + 1
                    }),
        {
            if let Position::NegativeInfinity = cur {
                proof {
                    if !(k is NegativeInfinity) {
                        lemma_filter_rho_prime_none(av, covers_pred(bv), k);
                    }
                }
                return Extent(Position::NegativeInfinity, Position::NegativeInfinity);
            }
            let r0 = self.a.rho_prime(cur);
            let ghost i = last_start_leq(av, bwd_key(cur));
            proof {
                lemma_last_start_leq_char(av, bwd_key(cur));
            }
            if !r0.is_valid() {
                proof {
                    assert(i == -1);
                    lemma_filter_rho_prime_none(av, covers_pred(bv), k);
                }
                return Extent(Position::NegativeInfinity, Position::NegativeInfinity);
            }
            let (p0, q0) = r0.unwrap();
            proof {
                assert(i >= 0 && av[i] == (p0, q0));
            }
            let r1 = self.b.tau_prime(Position::Valid(q0));
            let ghost mi = last_end_leq(bv, q0);
            proof {
                lemma_last_end_leq_char(bv, q0);
            }
            if Position::Valid(p0).le(r1.0) {
                // the last needle ending by q0 starts at or after p0:
                // this haystack encloses it
                proof {
                    assert(mi >= 0 && bv[mi] == r1.spec_unwrap());
                    assert(covers(bv, av[i]));
                    lemma_filter_rho_prime_found(av, covers_pred(bv), k, i);
                }
                return r0;
            } else {
                let ghost oldcur = cur;
                cur = r1.0;
                proof {
                    assert forall|j: int|
                        0 <= j < av.len() && (#[trigger] av[j]).0 <= bwd_key(k) && (cur
                            is NegativeInfinity || av[j].0 > bwd_key(cur)) implies !covers(
                        bv,
                        av[j],
                    ) by {
                        if av[j].0 <= bwd_key(oldcur) {
                            assert(j <= i);
                            assert(av[j].1 <= q0);
                            if covers(bv, av[j]) {
                                let m = choose|m: int|
                                    0 <= m < bv.len() && av[j].0 <= bv[m].0 && bv[m].1 <= av[j].1;
                                assert(bv[m].1 <= q0);
                                assert(m <= mi);
                                assert(mi >= 0);
                                assert(bv[m].0 <= bv[mi].0);
                                assert(r1 == valid_extent(bv[mi]));
                                assert(false);
                            }
                        }
                    }
                    if !(cur is NegativeInfinity) {
                        let f2 = last_start_leq(av, bwd_key(cur));
                        lemma_last_start_leq_char(av, bwd_key(cur));
                        assert(av[i].0 > bwd_key(cur));
                        assert(f2 < i);
                    }
                }
            }
        }
    }
}

} // verus!
