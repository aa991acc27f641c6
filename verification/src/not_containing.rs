//! The not-containing operator: extents of the first operand that
//! enclose no extent of the second.
//!
//! Its view is the first child's view filtered to the extents that
//! cover nothing of the second child.

use vstd::prelude::*;

use crate::algebra::Algebra;
use crate::extent::{valid_extent, Extent, ValidExtent};
use crate::filtered::{
    covers, lemma_filter_gc, lemma_filter_rho_found, lemma_filter_rho_none,
    lemma_filter_rho_prime_found, lemma_filter_rho_prime_none, lemma_filter_subset,
    lemma_filter_tau_none, lemma_filter_tau_prime_none, lemma_tau_prime_rho_prime_align,
    lemma_tau_rho_align, not_covers_pred,
};
use crate::gclist::{
    bwd_key, first_end_geq, first_start_geq, fwd_key, gc_list, last_end_leq, last_start_leq,
    lemma_first_end_geq_at, lemma_first_end_geq_char, lemma_first_start_geq_char,
    lemma_last_end_leq_char, lemma_last_start_leq_at, lemma_last_start_leq_char,
};
use crate::position::Position;

verus! {

/// The view a not-containing operator denotes: the first list filtered
/// to the extents that enclose nothing of the second list.
pub open spec fn not_containing_view(av: Seq<ValidExtent>, bv: Seq<ValidExtent>) -> Seq<
    ValidExtent,
> {
    av.filter(not_covers_pred(bv))
}

/// Finds extents from the first list that do not contain any extent
/// from the second list.
#[derive(Debug, Copy, Clone)]
pub struct NotContaining<A, B> where A: Algebra, B: Algebra {
    a: A,
    b: B,
}

impl<A, B> NotContaining<A, B> where A: Algebra, B: Algebra {
    /// Composes the operator; well-formed children make it well-formed,
    /// and its view is the filtered view of the first child.
    pub fn new(a: A, b: B) -> (r: Self)
        ensures
            a.inv() && b.inv() ==> r.inv(),
            r.extents() == not_containing_view(a.extents(), b.extents()),
    {
        NotContaining { a, b }
    }
}

impl<A, B> Algebra for NotContaining<A, B> where A: Algebra, B: Algebra {
    closed spec fn extents(&self) -> Seq<ValidExtent> {
        not_containing_view(self.a.extents(), self.b.extents())
    }

    closed spec fn inv(&self) -> bool {
        self.a.inv() && self.b.inv()
    }

    proof fn lemma_extents_gc(&self) {
        self.a.lemma_extents_gc();
        lemma_filter_gc(self.a.extents(), not_covers_pred(self.b.extents()));
    }

    fn tau(&self, k: Position) -> (r: Extent) {
        let ghost av = self.a.extents();
        let ghost bv = self.b.extents();
        let ghost fv = self.extents();
        proof {
            self.a.lemma_extents_gc();
            self.b.lemma_extents_gc();
        }
        if let Position::PositiveInfinity = k {
            return Extent(Position::PositiveInfinity, Position::PositiveInfinity);
        }
        let r0 = self.a.tau(k);
        let ghost ia = first_start_geq(av, fwd_key(k));
        proof {
            lemma_first_start_geq_char(av, fwd_key(k));
        }
        if !r0.is_valid() {
            proof {
                lemma_filter_tau_none(av, not_covers_pred(bv), k);
            }
            return Extent(Position::PositiveInfinity, Position::PositiveInfinity);
        }
        let (_p, q) = r0.unwrap();
        proof {
            assert(ia < av.len() && av[ia] == (_p, q));
            lemma_filter_subset(av, not_covers_pred(bv));
            lemma_filter_gc(av, not_covers_pred(bv));
            assert forall|j: int| 0 <= j < fv.len() implies (((#[trigger] fv[j]).0 >= fwd_key(
                k,
            )) <==> (fv[j].1 >= fwd_key(Position::Valid(q)))) by {
                let m = choose|m: int| 0 <= m < av.len() && av[m] == fv[j];
                assert(av.contains(fv[j]));
                if m >= ia {
                    assert(av[m].0 >= av[ia].0 && av[m].1 >= av[ia].1);
                } else {
                    assert(av[m].0 < fwd_key(k) && av[m].1 < av[ia].1);
                }
            }
            lemma_tau_rho_align(fv, k, Position::Valid(q));
        }
        self.rho(Position::Valid(q))
    }

    fn tau_prime(&self, k: Position) -> (r: Extent) {
        let ghost av = self.a.extents();
        let ghost bv = self.b.extents();
        let ghost fv = self.extents();
        proof {
            self.a.lemma_extents_gc();
            self.b.lemma_extents_gc();
        }
        if let Position::NegativeInfinity = k {
            return Extent(Position::NegativeInfinity, Position::NegativeInfinity);
        }
        let r0 = self.a.tau_prime(k);
        let ghost ia = last_end_leq(av, bwd_key(k));
        proof {
            lemma_last_end_leq_char(av, bwd_key(k));
        }
        if !r0.is_valid() {
            proof {
                lemma_filter_tau_prime_none(av, not_covers_pred(bv), k);
            }
            return Extent(Position::NegativeInfinity, Position::NegativeInfinity);
        }
        let (p, _q) = r0.unwrap();
        proof {
            assert(ia >= 0 && av[ia] == (p, _q));
            lemma_filter_subset(av, not_covers_pred(bv));
            lemma_filter_gc(av, not_covers_pred(bv));
            assert forall|j: int| 0 <= j < fv.len() implies (((#[trigger] fv[j]).1 <= bwd_key(
                k,
            )) <==> (fv[j].0 <= bwd_key(Position::Valid(p)))) by {
                let m = choose|m: int| 0 <= m < av.len() && av[m] == fv[j];
                assert(av.contains(fv[j]));
                if m <= ia {
                    assert(av[m].1 <= av[ia].1 && av[m].0 <= av[ia].0);
                } else {
                    assert(av[m].1 > bwd_key(k) && av[m].0 > av[ia].0);
                }
            }
            lemma_tau_prime_rho_prime_align(fv, k, Position::Valid(p));
        }
        self.rho_prime(Position::Valid(p))
    }

    fn rho(&self, k: Position) -> (r: Extent) {
        let ghost av = self.a.extents();
        let ghost bv = self.b.extents();
        proof {
            self.a.lemma_extents_gc();
            self.b.lemma_extents_gc();
        }
        let mut cur = k;
        loop
            invariant
                self.a.inv(),
                self.b.inv(),
                av == self.a.extents(),
                bv == self.b.extents(),
                gc_list(av),
                gc_list(bv),
                fwd_key(k) <= fwd_key(cur),
                k is PositiveInfinity ==> cur is PositiveInfinity,
                !(k is PositiveInfinity) ==> forall|j: int|
                    0 <= j < av.len() && (#[trigger] av[j]).1 >= fwd_key(k) && (cur
                        is PositiveInfinity || av[j].1 < fwd_key(cur)) ==> covers(bv, av[j]),
            decreases
                    (if cur is PositiveInfinity {
                        0int
                    } else {
                        av.len() - first_end_geq(av, fwd_key(cur))
                    }),
        {
            if let Position::PositiveInfinity = cur {
                proof {
                    if !(k is PositiveInfinity) {
                        lemma_filter_rho_none(av, not_covers_pred(bv), k);
                    }
                }
                return Extent(Position::PositiveInfinity, Position::PositiveInfinity);
            }
            let r0 = self.a.rho(cur);
            let ghost i = first_end_geq(av, fwd_key(cur));
            proof {
                lemma_first_end_geq_char(av, fwd_key(cur));
            }
            if !r0.is_valid() {
                proof {
                    assert(i == av.len());
                    lemma_filter_rho_none(av, not_covers_pred(bv), k);
                }
                return Extent(Position::PositiveInfinity, Position::PositiveInfinity);
            }
            let (p0, q0) = r0.unwrap();
            proof {
                assert(i < av.len() && av[i] == (p0, q0));
            }
            let r1 = self.b.tau(Position::Valid(p0));
            let ghost mi = first_start_geq(bv, p0);
            proof {
                lemma_first_start_geq_char(bv, p0);
            }
            if !r1.1.le(Position::Valid(q0)) {
                // every needle starting at or after p0 ends past q0:
                // this extent encloses nothing
                proof {
                    if covers(bv, av[i]) {
                        let m = choose|m: int|
                            0 <= m < bv.len() && av[i].0 <= bv[m].0 && bv[m].1 <= av[i].1;
                        assert(bv[m].0 >= p0);
                        assert(m >= mi);
                        assert(mi < bv.len());
                        assert(bv[m].1 >= bv[mi].1);
                        assert(r1 == valid_extent(bv[mi]));
                        assert(false);
                    }
                    lemma_filter_rho_found(av, not_covers_pred(bv), k, i);
                }
                return r0;
            } else {
                // the needle (p1, q1) sits inside this extent and every
                // later one reaching back to p1: skip past its start
                let (p1, q1) = r1.unwrap();
                let r2 = self.a.tau(Position::Valid(p1).increment());
                let ghost oldcur = cur;
                let ghost nk = Position::Valid(p1).spec_increment();
                let ghost ia2 = first_start_geq(av, fwd_key(nk));
                cur = r2.1;
                proof {
                    assert(mi < bv.len() && bv[mi] == (p1, q1));
                    assert(p1 >= p0);
                    assert(q1 <= q0);
                    if p1 == u64::MAX {
                        assert(nk is PositiveInfinity);
                        assert(cur is PositiveInfinity);
                        assert forall|j: int|
                            0 <= j < av.len() && (#[trigger] av[j]).1 >= fwd_key(k) && (cur
                                is PositiveInfinity || av[j].1 < fwd_key(cur)) implies covers(
                            bv,
                            av[j],
                        ) by {
                            if av[j].1 >= fwd_key(oldcur) {
                                assert(j >= i);
                                assert(av[j].0 <= u64::MAX == bv[mi].0);
                                assert(bv[mi].1 == q1 <= q0 <= av[j].1);
                            }
                        }
                    } else {
                        lemma_first_start_geq_char(av, fwd_key(nk));
                        if ia2 < av.len() {
                            assert(r2 == valid_extent(av[ia2]));
                            assert(cur == Position::Valid(av[ia2].1));
                        } else {
                            assert(cur is PositiveInfinity);
                        }
                        assert forall|j: int|
                            0 <= j < av.len() && (#[trigger] av[j]).1 >= fwd_key(k) && (cur
                                is PositiveInfinity || av[j].1 < fwd_key(cur)) implies covers(
                            bv,
                            av[j],
                        ) by {
                            if av[j].1 >= fwd_key(oldcur) {
                                assert(j >= i);
                                if j < ia2 {
                                    assert(av[j].0 < fwd_key(nk));
                                    assert(av[j].0 <= bv[mi].0 && bv[mi].1 <= av[j].1);
                                } else {
                                    assert(ia2 < av.len());
                                    assert(av[j].1 >= av[ia2].1);
                                    assert(cur is PositiveInfinity || av[j].1 >= fwd_key(cur));
                                    assert(false);
                                }
                            }
                        }
                        assert(av[i].0 == p0 < fwd_key(nk));
                        assert(i < ia2);
                        if ia2 < av.len() {
                            lemma_first_end_geq_at(av, av[ia2].1, ia2);
                        }
                    }
                }
            }
        }
    }

    fn rho_prime(&self, k: Position) -> (r: Extent) {
        let ghost av = self.a.extents();
        let ghost bv = self.b.extents();
        proof {
            self.a.lemma_extents_gc();
            self.b.lemma_extents_gc();
        }
        let mut cur = k;
        loop
            invariant
                self.a.inv(),
                self.b.inv(),
                av == self.a.extents(),
                bv == self.b.extents(),
                gc_list(av),
                gc_list(bv),
                bwd_key(cur) <= bwd_key(k),
                k is NegativeInfinity ==> cur is NegativeInfinity,
                !(k is NegativeInfinity) ==> forall|j: int|
                    0 <= j < av.len() && (#[trigger] av[j]).0 <= bwd_key(k) && (cur
                        is NegativeInfinity || av[j].0 > bwd_key(cur)) ==> covers(bv, av[j]),
            decreases
                    (if cur is NegativeInfinity {
                        0int
                    } else {
                        last_start_leq(av, bwd_key(cur)) + 1
                    }),
        {
            if let Position::NegativeInfinity = cur {
                proof {
                    if !(k is NegativeInfinity) {
                        lemma_filter_rho_prime_none(av, not_covers_pred(bv), k);
                    }
                }
                return Extent(Position::NegativeInfinity, Position::NegativeInfinity);
            }
            let r0 = self.a.rho_prime(cur);
            let ghost i = last_start_leq(av, bwd_key(cur));
            proof {
                lemma_last_start_leq_char(av, bwd_key(cur));
            }
            if !r0.is_valid() {
                proof {
                    assert(i == -1);
                    lemma_filter_rho_prime_none(av, not_covers_pred(bv), k);
                }
                return Extent(Position::NegativeInfinity, Position::NegativeInfinity);
            }
            let (p0, q0) = r0.unwrap();
            proof {
                assert(i >= 0 && av[i] == (p0, q0));
            }
            let r1 = self.b.tau_prime(Position::Valid(q0));
            let ghost mi = last_end_leq(bv, q0);
            proof {
                lemma_last_end_leq_char(bv, q0);
            }
            if !Position::Valid(p0).le(r1.0) {
                // every needle ending by q0 starts before p0
                proof {
                    if covers(bv, av[i]) {
                        let m = choose|m: int|
                            0 <= m < bv.len() && av[i].0 <= bv[m].0 && bv[m].1 <= av[i].1;
                        assert(bv[m].1 <= q0);
                        assert(m <= mi);
                        assert(mi >= 0);
                        assert(bv[m].0 <= bv[mi].0);
                        assert(r1 == valid_extent(bv[mi]));
                        assert(false);
                    }
                    lemma_filter_rho_prime_found(av, not_covers_pred(bv), k, i);
                }
                return r0;
            } else {
                // the needle (p1, q1) sits inside this extent and every
                // earlier one reaching up to q1: skip back past its end
                let (p1, q1) = r1.unwrap();
                let r2 = self.a.tau_prime(Position::Valid(q1).decrement());
                let ghost oldcur = cur;
                let ghost nk = Position::Valid(q1).spec_decrement();
                let ghost ia2 = last_end_leq(av, bwd_key(nk));
                cur = r2.0;
                proof {
                    assert(mi >= 0 && bv[mi] == (p1, q1));
                    assert(p1 >= p0);
                    assert(q1 <= q0);
                    if q1 == 0 {
                        assert(nk is NegativeInfinity);
                        assert(cur is NegativeInfinity);
                        assert forall|j: int|
                            0 <= j < av.len() && (#[trigger] av[j]).0 <= bwd_key(k) && (cur
                                is NegativeInfinity || av[j].0 > bwd_key(cur)) implies covers(
                            bv,
                            av[j],
                        ) by {
                            if av[j].0 <= bwd_key(oldcur) {
                                assert(j <= i);
                                assert(av[j].0 <= p0 <= bv[mi].0);
                                assert(bv[mi].1 == 0 <= av[j].1);
                            }
                        }
                    } else {
                        lemma_last_end_leq_char(av, bwd_key(nk));
                        if ia2 >= 0 {
                            assert(r2 == valid_extent(av[ia2]));
                            assert(cur == Position::Valid(av[ia2].0));
                        } else {
                            assert(cur is NegativeInfinity);
                        }
                        assert forall|j: int|
                            0 <= j < av.len() && (#[trigger] av[j]).0 <= bwd_key(k) && (cur
                                is NegativeInfinity || av[j].0 > bwd_key(cur)) implies covers(
                            bv,
                            av[j],
                        ) by {
                            if av[j].0 <= bwd_key(oldcur) {
                                assert(j <= i);
                                if j > ia2 {
                                    assert(av[j].1 > bwd_key(nk));
                                    assert(av[j].0 <= bv[mi].0 && bv[mi].1 <= av[j].1);
                                } else {
                                    assert(ia2 >= 0);
                                    assert(av[j].0 <= av[ia2].0);
                                    assert(cur is NegativeInfinity || av[j].0 <= bwd_key(cur));
                                    assert(false);
                                }
                            }
                        }
                        assert(av[i].1 == q0 > bwd_key(nk));
                        assert(ia2 < i);
                        if ia2 >= 0 {
                            lemma_last_start_leq_at(av, av[ia2].0, ia2);
                        }
                    }
                }
            }
        }
    }
}

} // verus!
