//! The both-of operator: the smallest extents covering one extent from
//! each operand.
//!
//! Every answer ends where some child extent ends; for each such end
//! `q` reached by both children, the tightest cover is the candidate
//! running from the later of the two last starts whose extents close by
//! `q`.  The view keeps the candidates whose starts strictly advance,
//! which restores the GC-list shape.

use vstd::prelude::*;

use crate::algebra::Algebra;
use crate::extent::{valid_extent, Extent, ValidExtent};
use crate::gclist::{
    bwd_key, first_start_geq, fwd_key, gc_list, last_end_leq, lemma_first_start_geq_at,
    lemma_first_start_geq_char, lemma_last_end_leq_at, lemma_last_end_leq_char,
    lemma_rho_prime_via_tau_tau_prime, lemma_rho_via_tau_prime_tau,
};
use crate::position::Position;

verus! {

/// The sorted union of the ends of two GC-lists, each end once.
pub open spec fn ends_union(a: Seq<ValidExtent>, b: Seq<ValidExtent>) -> Seq<u64>
    decreases a.len() + b.len(),
{
    if a.len() == 0 && b.len() == 0 {
        Seq::empty()
    } else if a.len() == 0 {
        seq![b[0].1] + ends_union(a, b.drop_first())
    } else if b.len() == 0 {
        seq![a[0].1] + ends_union(a.drop_first(), b)
    } else if a[0].1 == b[0].1 {
        seq![a[0].1] + ends_union(a.drop_first(), b.drop_first())
    } else if a[0].1 < b[0].1 {
        seq![a[0].1] + ends_union(a.drop_first(), b)
    } else {
        seq![b[0].1] + ends_union(a, b.drop_first())
    }
}

/// Whether both lists reach back to `q`: each has an extent ending at
/// or before it.
pub open spec fn bo_qual(av: Seq<ValidExtent>, bv: Seq<ValidExtent>, q: u64) -> bool {
    av.len() > 0 && bv.len() > 0 && av[0].1 <= q && bv[0].1 <= q
}

/// The tightest extent ending at `q` that covers one extent of each
/// list: from the earlier of the two last starts closing by `q`.
pub open spec fn bo_cand(av: Seq<ValidExtent>, bv: Seq<ValidExtent>, q: u64) -> ValidExtent {
    let pa = av[last_end_leq(av, q)].0;
    let pb = bv[last_end_leq(bv, q)].0;
    (
        if pa <= pb {
            pa
        } else {
            pb
        },
        q,
    )
}

/// A candidate survives when its start strictly exceeds that of every
/// earlier candidate: of each run sharing a start, only the shortest
/// stays.
pub open spec fn bo_keep(av: Seq<ValidExtent>, bv: Seq<ValidExtent>, t: int) -> bool {
    bo_qual(av, bv, ends_union(av, bv)[t]) && forall|t2: int|
        0 <= t2 < t && bo_qual(av, bv, ends_union(av, bv)[t2]) ==> bo_cand(
            av,
            bv,
            ends_union(av, bv)[t2],
        ).0 < bo_cand(av, bv, ends_union(av, bv)[t]).0
}

/// Whether `e` is the candidate of some surviving end below `n`.
pub open spec fn bo_is_kept_cand(
    av: Seq<ValidExtent>,
    bv: Seq<ValidExtent>,
    n: int,
    e: ValidExtent,
) -> bool {
    exists|t: int|
        0 <= t < n && #[trigger] bo_keep(av, bv, t) && e == bo_cand(av, bv, ends_union(av, bv)[t])
}

pub open spec fn bo_view_up_to(av: Seq<ValidExtent>, bv: Seq<ValidExtent>, n: int) -> Seq<
    ValidExtent,
>
    decreases n,
{
    if n <= 0 {
        Seq::empty()
    } else if bo_keep(av, bv, n - 1) {
        bo_view_up_to(av, bv, n - 1).push(bo_cand(av, bv, ends_union(av, bv)[n - 1]))
    } else {
        bo_view_up_to(av, bv, n - 1)
    }
}

/// The view a both-of operator denotes: the surviving covers, in order.
pub open spec fn both_of_view(av: Seq<ValidExtent>, bv: Seq<ValidExtent>) -> Seq<ValidExtent> {
    bo_view_up_to(av, bv, ends_union(av, bv).len() as int)
}

/// The union of ends is strictly increasing and holds exactly the ends
/// of the two lists.
pub proof fn lemma_ends_union_char(a: Seq<ValidExtent>, b: Seq<ValidExtent>)
    requires
        gc_list(a),
        gc_list(b),
    ensures
        forall|i: int, j: int|
            #![trigger ends_union(a, b)[i], ends_union(a, b)[j]]
            0 <= i < j < ends_union(a, b).len() ==> ends_union(a, b)[i] < ends_union(a, b)[j],
        forall|i: int|
            #![trigger ends_union(a, b)[i]]
            0 <= i < ends_union(a, b).len() ==> (exists|m: int|
                0 <= m < a.len() && (#[trigger] a[m]).1 == ends_union(a, b)[i]) || (exists|m: int|
                0 <= m < b.len() && (#[trigger] b[m]).1 == ends_union(a, b)[i]),
        forall|m: int|
            0 <= m < a.len() ==> ends_union(a, b).contains((#[trigger] a[m]).1),
        forall|m: int|
            0 <= m < b.len() ==> ends_union(a, b).contains((#[trigger] b[m]).1),
    decreases a.len() + b.len(),
{
    let u = ends_union(a, b);
    if a.len() == 0 && b.len() == 0 {
    } else {
        let ad = a.drop_first();
        let bd = b.drop_first();
        if a.len() > 0 {
            assert(forall|i: int| 0 <= i < ad.len() ==> ad[i] == a[i + 1]);
            assert(gc_list(ad));
        }
        if b.len() > 0 {
            assert(forall|i: int| 0 <= i < bd.len() ==> bd[i] == b[i + 1]);
            assert(gc_list(bd));
        }
        let (h, ta, tb): (u64, Seq<ValidExtent>, Seq<ValidExtent>) = if a.len() == 0 {
            (b[0].1, a, bd)
        } else if b.len() == 0 {
            (a[0].1, ad, b)
        } else if a[0].1 == b[0].1 {
            (a[0].1, ad, bd)
        } else if a[0].1 < b[0].1 {
            (a[0].1, ad, b)
        } else {
            (b[0].1, a, bd)
        };
        lemma_ends_union_char(ta, tb);
        let ut = ends_union(ta, tb);
        assert(u == seq![h] + ut);
        assert forall|i: int| 0 <= i < ut.len() implies h < #[trigger] ut[i] by {
            if exists|m: int| 0 <= m < ta.len() && (#[trigger] ta[m]).1 == ut[i] {
                let m = choose|m: int| 0 <= m < ta.len() && (#[trigger] ta[m]).1 == ut[i];
                if ta == ad {
                    assert(ut[i] == a[m + 1].1);
                } else {
                    assert(ut[i] == a[m].1);
                    if m == 0 {
                        assert(b[0].1 < a[0].1);
                    }
                }
            } else {
                let m = choose|m: int| 0 <= m < tb.len() && (#[trigger] tb[m]).1 == ut[i];
                if tb == bd {
                    assert(ut[i] == b[m + 1].1);
                } else {
                    assert(ut[i] == b[m].1);
                    if m == 0 {
                        assert(a[0].1 < b[0].1);
                    }
                }
            }
        }
        assert forall|m: int| 0 <= m < a.len() implies u.contains((#[trigger] a[m]).1) by {
            if a[m].1 == h {
                assert(u[0] == a[m].1);
            } else {
                if ta == ad {
                    if m > 0 {
                        assert(ta[m - 1].1 == a[m].1);
                        assert(ut.contains(a[m].1));
                    } else {
                        assert(h == b[0].1 && b[0].1 < a[0].1);
                        assert(ta == a);
                        assert(ta[m].1 == a[m].1);
                        assert(ut.contains(a[m].1));
                    }
                } else {
                    assert(ta == a);
                    assert(ta[m].1 == a[m].1);
                    assert(ut.contains(a[m].1));
                }
                let m2 = choose|m2: int| 0 <= m2 < ut.len() && ut[m2] == a[m].1;
                assert(u[m2 + 1] == a[m].1);
            }
        }
        assert forall|m: int| 0 <= m < b.len() implies u.contains((#[trigger] b[m]).1) by {
            if b[m].1 == h {
                assert(u[0] == b[m].1);
            } else {
                if tb == bd {
                    if m > 0 {
                        assert(tb[m - 1].1 == b[m].1);
                        assert(ut.contains(b[m].1));
                    } else {
                        assert(h == a[0].1 && a[0].1 < b[0].1);
                        assert(tb == b);
                        assert(tb[m].1 == b[m].1);
                        assert(ut.contains(b[m].1));
                    }
                } else {
                    assert(tb == b);
                    assert(tb[m].1 == b[m].1);
                    assert(ut.contains(b[m].1));
                }
                let m2 = choose|m2: int| 0 <= m2 < ut.len() && ut[m2] == b[m].1;
                assert(u[m2 + 1] == b[m].1);
            }
        }
        assert forall|i: int| #![trigger u[i]] 0 <= i < u.len() implies (exists|m: int|
            0 <= m < a.len() && (#[trigger] a[m]).1 == u[i]) || (exists|m: int|
            0 <= m < b.len() && (#[trigger] b[m]).1 == u[i]) by {
            if i == 0 {
                if a.len() > 0 {
                    assert(a[0].1 == a[0].1);
                }
                if b.len() > 0 {
                    assert(b[0].1 == b[0].1);
                }
            } else {
                assert(u[i] == ut[i - 1]);
                if exists|m: int| 0 <= m < ta.len() && (#[trigger] ta[m]).1 == ut[i - 1] {
                    let m = choose|m: int| 0 <= m < ta.len() && (#[trigger] ta[m]).1 == ut[i - 1];
                    if ta == ad {
                        assert(a[m + 1].1 == u[i]);
                    } else {
                        assert(a[m].1 == u[i]);
                    }
                } else {
                    let m = choose|m: int| 0 <= m < tb.len() && (#[trigger] tb[m]).1 == ut[i - 1];
                    if tb == bd {
                        assert(b[m + 1].1 == u[i]);
                    } else {
                        assert(b[m].1 == u[i]);
                    }
                }
            }
        }
    }
}

/// The surviving candidates form a GC-list, and the view holds exactly
/// the candidates of surviving ends.
pub proof fn lemma_bo_view_char(av: Seq<ValidExtent>, bv: Seq<ValidExtent>, n: int)
    requires
        gc_list(av),
        gc_list(bv),
        0 <= n <= ends_union(av, bv).len(),
    ensures
        gc_list(bo_view_up_to(av, bv, n)),
        forall|fi: int|
            0 <= fi < bo_view_up_to(av, bv, n).len() ==> bo_is_kept_cand(
                av,
                bv,
                n,
                #[trigger] bo_view_up_to(av, bv, n)[fi],
            ),
        forall|t: int|
            0 <= t < n && #[trigger] bo_keep(av, bv, t) ==> bo_view_up_to(av, bv, n).contains(
                bo_cand(av, bv, ends_union(av, bv)[t]),
            ),
    decreases n,
{
    lemma_ends_union_char(av, bv);
    let u = ends_union(av, bv);
    if n > 0 {
        lemma_bo_view_char(av, bv, n - 1);
        let prior = bo_view_up_to(av, bv, n - 1);
        let v = bo_view_up_to(av, bv, n);
        if bo_keep(av, bv, n - 1) {
            let c = bo_cand(av, bv, u[n - 1]);
            lemma_last_end_leq_char(av, u[n - 1]);
            lemma_last_end_leq_char(bv, u[n - 1]);
            assert(c.0 <= c.1);
            assert forall|fi: int| 0 <= fi < prior.len() implies (#[trigger] prior[fi]).0 < c.0
                && prior[fi].1 < c.1 by {
                assert(bo_is_kept_cand(av, bv, n - 1, prior[fi]));
                let t = choose|t: int|
                    0 <= t < n - 1 && #[trigger] bo_keep(av, bv, t) && prior[fi] == bo_cand(
                        av,
                        bv,
                        u[t],
                    );
                assert(bo_qual(av, bv, u[t]));
                assert(bo_cand(av, bv, u[t]).0 < c.0);
                assert(u[t] < u[n - 1]);
            }
            assert forall|i: int, j: int|
                #![trigger v[i], v[j]]
                0 <= i < j < v.len() implies v[i].0 < v[j].0 && v[i].1 < v[j].1 by {
                if j < prior.len() {
                    assert(v[i] == prior[i] && v[j] == prior[j]);
                } else {
                    assert(v[j] == c && v[i] == prior[i]);
                }
            }
            assert forall|i: int| 0 <= i < v.len() implies (#[trigger] v[i]).0 <= v[i].1 by {
                if i < prior.len() {
                    assert(v[i] == prior[i]);
                } else {
                    assert(v[i] == c);
                }
            }
            assert forall|t: int| 0 <= t < n && #[trigger] bo_keep(av, bv, t) implies v.contains(
                bo_cand(av, bv, u[t]),
            ) by {
                if t < n - 1 {
                    let fi = choose|fi: int|
                        0 <= fi < prior.len() && prior[fi] == bo_cand(av, bv, u[t]);
                    assert(v[fi] == bo_cand(av, bv, u[t]));
                } else {
                    assert(v[v.len() - 1] == bo_cand(av, bv, u[t]));
                }
            }
            assert forall|fi: int| 0 <= fi < v.len() implies bo_is_kept_cand(
                av,
                bv,
                n,
                #[trigger] v[fi],
            ) by {
                if fi < prior.len() {
                    assert(bo_is_kept_cand(av, bv, n - 1, prior[fi]));
                    let t = choose|t: int|
                        0 <= t < n - 1 && #[trigger] bo_keep(av, bv, t) && prior[fi] == bo_cand(
                            av,
                            bv,
                            u[t],
                        );
                    assert(0 <= t < n && bo_keep(av, bv, t) && v[fi] == bo_cand(av, bv, u[t]));
                } else {
                    assert(0 <= n - 1 < n && bo_keep(av, bv, n - 1) && v[fi] == bo_cand(
                        av,
                        bv,
                        u[n - 1],
                    ));
                }
            }
        } else {
            assert(v == prior);
            assert forall|fi: int| 0 <= fi < v.len() implies bo_is_kept_cand(
                av,
                bv,
                n,
                #[trigger] v[fi],
            ) by {
                assert(bo_is_kept_cand(av, bv, n - 1, prior[fi]));
                let t = choose|t: int|
                    0 <= t < n - 1 && #[trigger] bo_keep(av, bv, t) && prior[fi] == bo_cand(
                        av,
                        bv,
                        u[t],
                    );
                assert(0 <= t < n && bo_keep(av, bv, t) && v[fi] == bo_cand(av, bv, u[t]));
            }
        }
    }
}

/// Creates the smallest extents that cover one extent from each
/// operand.
#[derive(Debug, Copy, Clone)]
pub struct BothOf<A, B> where A: Algebra, B: Algebra {
    a: A,
    b: B,
}

impl<A, B> BothOf<A, B> where A: Algebra, B: Algebra {
    /// Composes the operator; well-formed children make it well-formed,
    /// and its view holds the surviving covers.
    pub fn new(a: A, b: B) -> (r: Self)
        ensures
            a.inv() && b.inv() ==> r.inv(),
            r.extents() == both_of_view(a.extents(), b.extents()),
    {
        BothOf { a, b }
    }
}

impl<A, B> Algebra for BothOf<A, B> where A: Algebra, B: Algebra {
    closed spec fn extents(&self) -> Seq<ValidExtent> {
        both_of_view(self.a.extents(), self.b.extents())
    }

    closed spec fn inv(&self) -> bool {
        self.a.inv() && self.b.inv()
    }

    proof fn lemma_extents_gc(&self) {
        self.a.lemma_extents_gc();
        self.b.lemma_extents_gc();
        lemma_bo_view_char(
            self.a.extents(),
            self.b.extents(),
            ends_union(self.a.extents(), self.b.extents()).len() as int,
        );
    }

    #[verifier::rlimit(100)]
    fn tau(&self, k: Position) -> (r: Extent) {
        let ghost av = self.a.extents();
        let ghost bv = self.b.extents();
        let ghost cv = self.extents();
        let ghost u = ends_union(av, bv);
        proof {
            self.a.lemma_extents_gc();
            self.b.lemma_extents_gc();
            lemma_ends_union_char(av, bv);
            lemma_bo_view_char(av, bv, u.len() as int);
        }
        if let Position::PositiveInfinity = k {
            return Extent(Position::PositiveInfinity, Position::PositiveInfinity);
        }
        let ghost kv = fwd_key(k);
        // the next extents on both sides
        let ra = self.a.tau(k);
        let rb = self.b.tau(k);
        let ghost ia = first_start_geq(av, kv);
        let ghost jb = first_start_geq(bv, kv);
        proof {
            lemma_first_start_geq_char(av, kv);
            lemma_first_start_geq_char(bv, kv);
        }
        if !ra.is_valid() || !rb.is_valid() {
            // one side is exhausted: every candidate from kv onward
            // would need a start from that side at or after kv
            proof {
                assert forall|fi: int| 0 <= fi < cv.len() implies (#[trigger] cv[fi]).0 < kv by {
                    assert(bo_is_kept_cand(av, bv, u.len() as int, cv[fi]));
                    let t = choose|t: int|
                        0 <= t < u.len() && #[trigger] bo_keep(av, bv, t) && cv[fi] == bo_cand(
                            av,
                            bv,
                            u[t],
                        );
                    lemma_last_end_leq_char(av, u[t]);
                    lemma_last_end_leq_char(bv, u[t]);
                    if !ra.spec_is_valid() {
                        assert(ia == av.len());
                        assert(av[last_end_leq(av, u[t])].0 < kv);
                    } else {
                        assert(jb == bv.len());
                        assert(bv[last_end_leq(bv, u[t])].0 < kv);
                    }
                }
                lemma_first_start_geq_at(cv, kv, cv.len() as int);
            }
            return Extent(Position::PositiveInfinity, Position::PositiveInfinity);
        }
        // find the farthest end of the two next extents
        let (p0, q0) = ra.unwrap();
        let (p1, q1) = rb.unwrap();
        let qmax = if q0 <= q1 {
            q1
        } else {
            q0
        };
        // the tightest extents on each side ending by that point
        let r2 = self.a.tau_prime(Position::Valid(qmax));
        let r3 = self.b.tau_prime(Position::Valid(qmax));
        let ghost pda = last_end_leq(av, qmax);
        let ghost pdb = last_end_leq(bv, qmax);
        proof {
            lemma_last_end_leq_char(av, qmax);
            lemma_last_end_leq_char(bv, qmax);
            assert(av[ia].1 <= qmax);
            assert(bv[jb].1 <= qmax);
            assert(pda >= ia && pdb >= jb);
            assert(r2 == valid_extent(av[pda]) && r3 == valid_extent(bv[pdb]));
        }
        let (p2, q2) = r2.unwrap();
        let (p3, q3) = r3.unwrap();
        let pmin = if p2 <= p3 {
            p2
        } else {
            p3
        };
        proof {
            let e = bo_cand(av, bv, qmax);
            // the side achieving qmax is its own tightest closer
            if q0 <= q1 {
                lemma_last_end_leq_at(bv, qmax, jb);
                assert(q3 == qmax);
            } else {
                lemma_last_end_leq_at(av, qmax, ia);
                assert(q2 == qmax);
            }
            assert(e == (pmin, qmax));
            assert(bo_qual(av, bv, qmax)) by {
                assert(av[0].1 <= av[ia].1);
                assert(bv[0].1 <= bv[jb].1);
            }
            assert(e.0 >= kv) by {
                assert(av[pda].0 >= av[ia].0);
                assert(bv[pdb].0 >= bv[jb].0);
            }
            // qmax is a child end, so it appears in the union
            assert(u.contains(qmax)) by {
                if q0 <= q1 {
                    assert(u.contains(bv[jb].1));
                } else {
                    assert(u.contains(av[ia].1));
                }
            }
            let tstar = choose|tstar: int| 0 <= tstar < u.len() && u[tstar] == qmax;
            assert forall|t2: int| 0 <= t2 < tstar && bo_qual(av, bv, u[t2]) implies bo_cand(
                av,
                bv,
                u[t2],
            ).0 < e.0 by {
                assert(u[t2] < qmax);
                lemma_last_end_leq_char(av, u[t2]);
                lemma_last_end_leq_char(bv, u[t2]);
                if u[t2] < q0 {
                    assert(av[last_end_leq(av, u[t2])].1 < av[ia].1);
                    assert(last_end_leq(av, u[t2]) < ia);
                    assert(av[last_end_leq(av, u[t2])].0 < kv);
                } else {
                    assert(u[t2] < q1);
                    assert(bv[last_end_leq(bv, u[t2])].1 < bv[jb].1);
                    assert(last_end_leq(bv, u[t2]) < jb);
                    assert(bv[last_end_leq(bv, u[t2])].0 < kv);
                }
            }
            assert(bo_keep(av, bv, tstar));
            assert(cv.contains(e));
            let fi = choose|fi: int| 0 <= fi < cv.len() && cv[fi] == e;
            assert forall|fi2: int| 0 <= fi2 < fi implies (#[trigger] cv[fi2]).0 < kv by {
                assert(cv[fi2].0 < cv[fi].0);
                assert(bo_is_kept_cand(av, bv, u.len() as int, cv[fi2]));
                let t2 = choose|t2: int|
                    0 <= t2 < u.len() && #[trigger] bo_keep(av, bv, t2) && cv[fi2] == bo_cand(
                        av,
                        bv,
                        u[t2],
                    );
                if t2 > tstar {
                    assert(u[tstar] < u[t2]);
                    assert(bo_cand(av, bv, u[tstar]).0 < bo_cand(av, bv, u[t2]).0);
                    assert(false);
                } else if t2 == tstar {
                    assert(false);
                } else {
                    assert(u[t2] < qmax);
                    lemma_last_end_leq_char(av, u[t2]);
                    lemma_last_end_leq_char(bv, u[t2]);
                    if u[t2] < q0 {
                        assert(av[last_end_leq(av, u[t2])].1 < av[ia].1);
                        assert(last_end_leq(av, u[t2]) < ia);
                        assert(av[last_end_leq(av, u[t2])].0 < kv);
                    } else {
                        assert(u[t2] < q1);
                        assert(bv[last_end_leq(bv, u[t2])].1 < bv[jb].1);
                        assert(last_end_leq(bv, u[t2]) < jb);
                        assert(bv[last_end_leq(bv, u[t2])].0 < kv);
                    }
                }
            }
            lemma_first_start_geq_at(cv, kv, fi);
        }
        Extent(Position::Valid(pmin), Position::Valid(qmax))
    }

    #[verifier::rlimit(100)]
    fn tau_prime(&self, k: Position) -> (r: Extent) {
        let ghost av = self.a.extents();
        let ghost bv = self.b.extents();
        let ghost cv = self.extents();
        let ghost u = ends_union(av, bv);
        proof {
            self.a.lemma_extents_gc();
            self.b.lemma_extents_gc();
            lemma_ends_union_char(av, bv);
            lemma_bo_view_char(av, bv, u.len() as int);
        }
        if let Position::NegativeInfinity = k {
            return Extent(Position::NegativeInfinity, Position::NegativeInfinity);
        }
        let ghost kv = bwd_key(k);
        // the previous extents on both sides
        let ra = self.a.tau_prime(k);
        let rb = self.b.tau_prime(k);
        let ghost ia = last_end_leq(av, kv);
        let ghost jb = last_end_leq(bv, kv);
        proof {
            lemma_last_end_leq_char(av, kv);
            lemma_last_end_leq_char(bv, kv);
        }
        if !ra.is_valid() || !rb.is_valid() {
            // one side has nothing ending by k, so no candidate does
            proof {
                assert forall|fi: int| 0 <= fi < cv.len() implies (#[trigger] cv[fi]).1 > kv by {
                    assert(bo_is_kept_cand(av, bv, u.len() as int, cv[fi]));
                    let t = choose|t: int|
                        0 <= t < u.len() && #[trigger] bo_keep(av, bv, t) && cv[fi] == bo_cand(
                            av,
                            bv,
                            u[t],
                        );
                    if cv[fi].1 <= kv {
                        assert(bo_qual(av, bv, u[t]));
                        if !ra.spec_is_valid() {
                            assert(ia == -1);
                            assert(av[0].1 <= u[t] <= kv);
                        } else {
                            assert(jb == -1);
                            assert(bv[0].1 <= u[t] <= kv);
                        }
                        assert(false);
                    }
                }
                lemma_last_end_leq_at(cv, kv, -1);
            }
            return Extent(Position::NegativeInfinity, Position::NegativeInfinity);
        }
        // find the earliest start of the two previous extents
        let (p0, q0) = ra.unwrap();
        let (p1, q1) = rb.unwrap();
        let pmin = if p0 <= p1 {
            p0
        } else {
            p1
        };
        // the first extents on each side starting from that point
        let r2 = self.a.tau(Position::Valid(pmin));
        let r3 = self.b.tau(Position::Valid(pmin));
        let ghost i2 = first_start_geq(av, pmin);
        let ghost j2 = first_start_geq(bv, pmin);
        proof {
            lemma_first_start_geq_char(av, pmin);
            lemma_first_start_geq_char(bv, pmin);
            assert(av[ia].0 >= pmin);
            assert(bv[jb].0 >= pmin);
            assert(i2 <= ia && j2 <= jb);
            assert(r2 == valid_extent(av[i2]) && r3 == valid_extent(bv[j2]));
        }
        let (p2, q2) = r2.unwrap();
        let (p3, q3) = r3.unwrap();
        let qmax = if q2 <= q3 {
            q3
        } else {
            q2
        };
        proof {
            let e = bo_cand(av, bv, qmax);
            assert(av[i2].1 <= av[ia].1 && bv[j2].1 <= bv[jb].1);
            assert(qmax <= kv);
            lemma_last_end_leq_char(av, qmax);
            lemma_last_end_leq_char(bv, qmax);
            let pda = last_end_leq(av, qmax);
            let pdb = last_end_leq(bv, qmax);
            assert(pda >= i2 && pdb >= j2);
            // the side achieving pmin is its own first restart, and the
            // other side's closer starts no earlier
            if p0 <= p1 {
                lemma_first_start_geq_at(av, pmin, ia);
                assert(i2 == ia && p2 == pmin);
                assert(pda <= ia);
                assert(pda == ia);
                assert(av[pda].0 == pmin);
                assert(bv[pdb].0 >= bv[j2].0 == p3 >= pmin);
            } else {
                lemma_first_start_geq_at(bv, pmin, jb);
                assert(j2 == jb && p3 == pmin);
                assert(pdb <= jb);
                assert(pdb == jb);
                assert(bv[pdb].0 == pmin);
                assert(av[pda].0 >= av[i2].0 == p2 >= pmin);
            }
            assert(e == (pmin, qmax));
            assert(bo_qual(av, bv, qmax)) by {
                assert(av[0].1 <= av[i2].1);
                assert(bv[0].1 <= bv[j2].1);
            }
            assert(u.contains(qmax)) by {
                if q2 <= q3 {
                    assert(u.contains(bv[j2].1));
                } else {
                    assert(u.contains(av[i2].1));
                }
            }
            let tstar = choose|tstar: int| 0 <= tstar < u.len() && u[tstar] == qmax;
            assert forall|t2: int| 0 <= t2 < tstar && bo_qual(av, bv, u[t2]) implies bo_cand(
                av,
                bv,
                u[t2],
            ).0 < e.0 by {
                assert(u[t2] < qmax);
                lemma_last_end_leq_char(av, u[t2]);
                lemma_last_end_leq_char(bv, u[t2]);
                if u[t2] < q2 {
                    assert(av[last_end_leq(av, u[t2])].1 < av[i2].1);
                    assert(last_end_leq(av, u[t2]) < i2);
                    assert(av[last_end_leq(av, u[t2])].0 < pmin);
                } else {
                    assert(u[t2] < q3);
                    assert(bv[last_end_leq(bv, u[t2])].1 < bv[j2].1);
                    assert(last_end_leq(bv, u[t2]) < j2);
                    assert(bv[last_end_leq(bv, u[t2])].0 < pmin);
                }
            }
            assert(bo_keep(av, bv, tstar));
            assert(cv.contains(e));
            let fi = choose|fi: int| 0 <= fi < cv.len() && cv[fi] == e;
            assert forall|fi2: int| fi < fi2 < cv.len() implies (#[trigger] cv[fi2]).1 > kv by {
                assert(cv[fi2].0 > cv[fi].0 && cv[fi2].1 > cv[fi].1);
                assert(bo_is_kept_cand(av, bv, u.len() as int, cv[fi2]));
                let t2 = choose|t2: int|
                    0 <= t2 < u.len() && #[trigger] bo_keep(av, bv, t2) && cv[fi2] == bo_cand(
                        av,
                        bv,
                        u[t2],
                    );
                if cv[fi2].1 <= kv {
                    assert(u[t2] == cv[fi2].1);
                    assert(u[t2] > qmax) by {
                        if t2 < tstar {
                            assert(u[t2] < u[tstar]);
                        }
                        if t2 == tstar {
                            assert(cv[fi2] == e);
                        }
                        if t2 > tstar {
                            assert(u[t2] > u[tstar]);
                        }
                        assert(cv[fi2].1 != qmax);
                    }
                    lemma_last_end_leq_char(av, u[t2]);
                    lemma_last_end_leq_char(bv, u[t2]);
                    assert(last_end_leq(av, u[t2]) <= ia);
                    assert(last_end_leq(bv, u[t2]) <= jb);
                    assert(av[last_end_leq(av, u[t2])].0 <= av[ia].0 == p0);
                    assert(bv[last_end_leq(bv, u[t2])].0 <= bv[jb].0 == p1);
                    assert(bo_cand(av, bv, u[t2]).0 <= pmin);
                    // yet a later surviving candidate must start past e
                    assert(t2 > tstar);
                    assert(bo_cand(av, bv, u[tstar]).0 < bo_cand(av, bv, u[t2]).0);
                    assert(false);
                }
            }
            lemma_last_end_leq_at(cv, kv, fi);
        }
        Extent(Position::Valid(pmin), Position::Valid(qmax))
    }

    fn rho(&self, k: Position) -> (r: Extent) {
        proof {
            self.lemma_extents_gc();
        }
        if let Position::PositiveInfinity = k {
            return Extent(Position::PositiveInfinity, Position::PositiveInfinity);
        }
        let r1 = self.tau_prime(k.decrement());
        proof {
            lemma_rho_via_tau_prime_tau(self.extents(), k);
        }
        self.tau(r1.0.increment())
    }

    fn rho_prime(&self, k: Position) -> (r: Extent) {
        proof {
            self.lemma_extents_gc();
        }
        if let Position::NegativeInfinity = k {
            return Extent(Position::NegativeInfinity, Position::NegativeInfinity);
        }
        let r1 = self.tau(k.increment());
        proof {
            lemma_rho_prime_via_tau_tau_prime(self.extents(), k);
        }
        self.tau_prime(r1.1.decrement())
    }
}

} // verus!
