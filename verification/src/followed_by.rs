//! The followed-by operator: extents that span an extent of the first
//! operand and a strictly later extent of the second.
//!
//! For each second-child extent that some first-child extent wholly
//! precedes, there is a candidate running from the start of the
//! tightest such predecessor to the second-child extent's end.  The
//! operator's view keeps the candidates whose starts strictly advance
//! (the tightest of each run), which restores the GC-list shape.

use vstd::prelude::*;

use crate::algebra::Algebra;
use crate::extent::{valid_extent, Extent, ValidExtent};
use crate::gclist::{
    bwd_key, first_start_geq, fwd_key, gc_list, last_end_leq, lemma_first_start_geq_at,
    lemma_first_start_geq_char, lemma_last_end_leq_at, lemma_last_end_leq_char,
    lemma_rho_prime_via_tau_tau_prime, lemma_rho_via_tau_prime_tau,
};
use crate::position::Position;

verus! {

/// The index of the tightest extent of `av` ending strictly before
/// `x`, or `-1` when none does.
pub open spec fn fb_prev(av: Seq<ValidExtent>, x: u64) -> int {
    if x == 0 {
        -1
    } else {
        last_end_leq(av, (x - 1) as u64)
    }
}

/// Whether the `j`-th second-child extent has a wholly preceding
/// first-child extent.
pub open spec fn fb_qual(av: Seq<ValidExtent>, bv: Seq<ValidExtent>, j: int) -> bool {
    fb_prev(av, bv[j].0) >= 0
}

/// The candidate spanned for the `j`-th second-child extent: from the
/// tightest preceding first-child start to the second-child end.
pub open spec fn fb_cand(av: Seq<ValidExtent>, bv: Seq<ValidExtent>, j: int) -> ValidExtent {
    (av[fb_prev(av, bv[j].0)].0, bv[j].1)
}

/// A candidate survives when its start strictly exceeds that of every
/// earlier candidate: of each run sharing a predecessor, only the
/// shortest stays.
pub open spec fn fb_keep(av: Seq<ValidExtent>, bv: Seq<ValidExtent>, j: int) -> bool {
    fb_qual(av, bv, j) && forall|j2: int|
        0 <= j2 < j && fb_qual(av, bv, j2) ==> fb_cand(av, bv, j2).0 < fb_cand(av, bv, j).0
}

/// Whether `e` is the candidate of some surviving index below `n`.
pub open spec fn fb_is_kept_cand(
    av: Seq<ValidExtent>,
    bv: Seq<ValidExtent>,
    n: int,
    e: ValidExtent,
) -> bool {
    exists|j: int| 0 <= j < n && #[trigger] fb_keep(av, bv, j) && e == fb_cand(av, bv, j)
}

pub open spec fn fb_view_up_to(av: Seq<ValidExtent>, bv: Seq<ValidExtent>, n: int) -> Seq<
    ValidExtent,
>
    decreases n,
{
    if n <= 0 {
        Seq::empty()
    } else if fb_keep(av, bv, n - 1) {
        fb_view_up_to(av, bv, n - 1).push(fb_cand(av, bv, n - 1))
    } else {
        fb_view_up_to(av, bv, n - 1)
    }
}

/// The view a followed-by operator denotes: the surviving candidates,
/// in order.
pub open spec fn followed_by_view(av: Seq<ValidExtent>, bv: Seq<ValidExtent>) -> Seq<ValidExtent> {
    fb_view_up_to(av, bv, bv.len() as int)
}

/// The surviving candidates form a GC-list, and the view holds exactly
/// the candidates of surviving indices.
pub proof fn lemma_fb_view_char(av: Seq<ValidExtent>, bv: Seq<ValidExtent>, n: int)
    requires
        gc_list(av),
        gc_list(bv),
        0 <= n <= bv.len(),
    ensures
        gc_list(fb_view_up_to(av, bv, n)),
        forall|fi: int|
            0 <= fi < fb_view_up_to(av, bv, n).len() ==> fb_is_kept_cand(
                av,
                bv,
                n,
                #[trigger] fb_view_up_to(av, bv, n)[fi],
            ),
        forall|j: int|
            0 <= j < n && #[trigger] fb_keep(av, bv, j) ==> fb_view_up_to(av, bv, n).contains(
                fb_cand(av, bv, j),
            ),
    decreases n,
{
    if n > 0 {
        lemma_fb_view_char(av, bv, n - 1);
        let prior = fb_view_up_to(av, bv, n - 1);
        let v = fb_view_up_to(av, bv, n);
        if fb_keep(av, bv, n - 1) {
            let c = fb_cand(av, bv, n - 1);
            let pd = fb_prev(av, bv[n - 1].0);
            lemma_last_end_leq_char(av, (bv[n - 1].0 - 1) as u64);
            assert(0 <= pd < av.len());
            assert(av[pd].1 < bv[n - 1].0);
            assert(c.0 <= c.1);
            assert forall|fi: int| 0 <= fi < prior.len() implies (#[trigger] prior[fi]).0 < c.0
                && prior[fi].1 < c.1 by {
                assert(fb_is_kept_cand(av, bv, n - 1, prior[fi]));
                let j = choose|j: int|
                    0 <= j < n - 1 && #[trigger] fb_keep(av, bv, j) && prior[fi] == fb_cand(
                        av,
                        bv,
                        j,
                    );
                assert(fb_qual(av, bv, j));
                assert(fb_cand(av, bv, j).0 < c.0);
                assert(bv[j].1 < bv[n - 1].1);
            }
            assert forall|i: int, j: int|
                #![trigger v[i], v[j]]
                0 <= i < j < v.len() implies v[i].0 < v[j].0 && v[i].1 < v[j].1 by {
                if j < prior.len() {
                    assert(v[i] == prior[i] && v[j] == prior[j]);
                } else {
                    assert(v[j] == c && v[i] == prior[i]);
                }
            }
            assert forall|i: int| 0 <= i < v.len() implies (#[trigger] v[i]).0 <= v[i].1 by {
                if i < prior.len() {
                    assert(v[i] == prior[i]);
                } else {
                    assert(v[i] == c);
                }
            }
            assert forall|j: int| 0 <= j < n && fb_keep(av, bv, j) implies v.contains(
                fb_cand(av, bv, j),
            ) by {
                if j < n - 1 {
                    let fi = choose|fi: int|
                        0 <= fi < prior.len() && prior[fi] == fb_cand(av, bv, j);
                    assert(v[fi] == fb_cand(av, bv, j));
                } else {
                    assert(v[v.len() - 1] == fb_cand(av, bv, j));
                }
            }
            assert forall|fi: int| 0 <= fi < v.len() implies fb_is_kept_cand(
                av,
                bv,
                n,
                #[trigger] v[fi],
            ) by {
                if fi < prior.len() {
                    assert(fb_is_kept_cand(av, bv, n - 1, prior[fi]));
                    let j = choose|j: int|
                        0 <= j < n - 1 && #[trigger] fb_keep(av, bv, j) && prior[fi] == fb_cand(
                            av,
                            bv,
                            j,
                        );
                    assert(0 <= j < n && fb_keep(av, bv, j) && v[fi] == fb_cand(av, bv, j));
                } else {
                    assert(0 <= n - 1 < n && fb_keep(av, bv, n - 1) && v[fi] == fb_cand(
                        av,
                        bv,
                        n - 1,
                    ));
                }
            }
        } else {
            assert(v == prior);
            assert forall|fi: int| 0 <= fi < v.len() implies fb_is_kept_cand(
                av,
                bv,
                n,
                #[trigger] v[fi],
            ) by {
                assert(fb_is_kept_cand(av, bv, n - 1, prior[fi]));
                let j = choose|j: int|
                    0 <= j < n - 1 && #[trigger] fb_keep(av, bv, j) && prior[fi] == fb_cand(
                        av,
                        bv,
                        j,
                    );
                assert(0 <= j < n && fb_keep(av, bv, j) && v[fi] == fb_cand(av, bv, j));
            }
        }
    }
}

/// Creates extents that start at an extent from the first operand and
/// end at a strictly later extent from the second.
#[derive(Debug, Copy, Clone)]
pub struct FollowedBy<A, B> where A: Algebra, B: Algebra {
    a: A,
    b: B,
}

impl<A, B> FollowedBy<A, B> where A: Algebra, B: Algebra {
    /// Composes the operator; well-formed children make it well-formed,
    /// and its view holds the surviving spanned candidates.
    pub fn new(a: A, b: B) -> (r: Self)
        ensures
            a.inv() && b.inv() ==> r.inv(),
            r.extents() == followed_by_view(a.extents(), b.extents()),
    {
        FollowedBy { a, b }
    }
}

impl<A, B> Algebra for FollowedBy<A, B> where A: Algebra, B: Algebra {
    closed spec fn extents(&self) -> Seq<ValidExtent> {
        followed_by_view(self.a.extents(), self.b.extents())
    }

    closed spec fn inv(&self) -> bool {
        self.a.inv() && self.b.inv()
    }

    proof fn lemma_extents_gc(&self) {
        self.a.lemma_extents_gc();
        self.b.lemma_extents_gc();
        lemma_fb_view_char(
            self.a.extents(),
            self.b.extents(),
            self.b.extents().len() as int,
        );
    }

    fn tau(&self, k: Position) -> (r: Extent) {
        let ghost av = self.a.extents();
        let ghost bv = self.b.extents();
        let ghost fv = self.extents();
        proof {
            self.a.lemma_extents_gc();
            self.b.lemma_extents_gc();
            lemma_fb_view_char(av, bv, bv.len() as int);
        }
        if let Position::PositiveInfinity = k {
            return Extent(Position::PositiveInfinity, Position::PositiveInfinity);
        }
        let ghost kv = fwd_key(k);
        // the closest `a` extent at or after k
        let r0 = self.a.tau(k);
        let ghost ia = first_start_geq(av, kv);
        proof {
            lemma_first_start_geq_char(av, kv);
        }
        // the first `b` extent strictly after it
        let r1 = self.b.tau(r0.1.increment());
        proof {
            if !r0.spec_is_valid() {
                assert(r1 == crate::extent::end_extent());
            }
        }
        if !r1.is_valid() {
            // no candidate starts at or after k: any surviving
            // candidate from kv onward would need an `a` extent at or
            // after kv and a `b` extent after its end
            proof {
                assert forall|fi: int| 0 <= fi < fv.len() implies (#[trigger] fv[fi]).0 < kv by {
                    assert(fb_is_kept_cand(av, bv, bv.len() as int, fv[fi]));
                    let j = choose|j: int|
                        0 <= j < bv.len() && #[trigger] fb_keep(av, bv, j) && fv[fi] == fb_cand(
                            av,
                            bv,
                            j,
                        );
                    let pd = fb_prev(av, bv[j].0);
                    lemma_last_end_leq_char(av, (bv[j].0 - 1) as u64);
                    if av[pd].0 >= kv {
                        assert(pd >= ia);
                        assert(ia < av.len());
                        let q0 = av[ia].1;
                        assert(r0 == valid_extent(av[ia]));
                        assert(r0.1 == Position::Valid(q0));
                        assert(av[pd].1 >= q0);
                        assert(bv[j].0 > av[pd].1);
                        assert(q0 < u64::MAX) by {
                            assert(bv[j].0 <= u64::MAX);
                        }
                        let ki = Position::Valid(q0).spec_increment();
                        assert(ki == Position::Valid((q0 + 1) as u64));
                        let f = first_start_geq(bv, (q0 + 1) as u64);
                        if f < bv.len() {
                            assert(r1 == valid_extent(bv[f]));
                            assert(false);
                        }
                        lemma_first_start_geq_char(bv, (q0 + 1) as u64);
                        assert(bv[j].0 < q0 + 1);
                        assert(false);
                    }
                }
                lemma_first_start_geq_at(fv, kv, fv.len() as int);
            }
            return Extent(Position::PositiveInfinity, Position::PositiveInfinity);
        }
        // r0 is valid here: had `a` been exhausted, `b` would have been
        let (_pa, q0) = r0.unwrap();
        let (p1, q1) = r1.unwrap();
        let ghost jstar = first_start_geq(bv, fwd_key(Position::Valid(q0).spec_increment()));
        proof {
            assert(ia < av.len() && av[ia] == (_pa, q0));
            lemma_first_start_geq_char(bv, fwd_key(Position::Valid(q0).spec_increment()));
            assert(jstar < bv.len() && bv[jstar] == (p1, q1));
            assert(p1 > q0);
        }
        // the tightest `a` extent still before the chosen `b` extent
        let r2 = self.a.tau_prime(Position::Valid(p1).decrement());
        let ghost pd = fb_prev(av, p1);
        proof {
            lemma_last_end_leq_char(av, (p1 - 1) as u64);
            assert(av[ia].1 == q0 < p1);
            assert(pd >= ia);
            assert(r2 == valid_extent(av[pd]));
            assert(fb_qual(av, bv, jstar));
            assert(fb_cand(av, bv, jstar) == (av[pd].0, q1));
            // jstar survives: earlier qualifying candidates stop short of kv
            assert forall|j2: int| 0 <= j2 < jstar && fb_qual(av, bv, j2) implies fb_cand(
                av,
                bv,
                j2,
            ).0 < av[pd].0 by {
                let pd2 = fb_prev(av, bv[j2].0);
                lemma_last_end_leq_char(av, (bv[j2].0 - 1) as u64);
                assert(bv[j2].0 <= q0);
                assert(av[pd2].1 < bv[j2].0);
                assert(av[pd2].1 < av[ia].1);
                assert(pd2 < ia);
                assert(av[pd2].0 < av[ia].0);
                assert(av[ia].0 <= av[pd].0);
            }
            assert(fb_keep(av, bv, jstar));
            assert(fv.contains(fb_cand(av, bv, jstar)));
            let fi = choose|fi: int| 0 <= fi < fv.len() && fv[fi] == fb_cand(av, bv, jstar);
            assert(av[pd].0 >= av[ia].0 >= kv);
            assert forall|fi2: int| 0 <= fi2 < fi implies (#[trigger] fv[fi2]).0 < kv by {
                assert(fb_is_kept_cand(av, bv, bv.len() as int, fv[fi2]));
                let j2 = choose|j2: int|
                    0 <= j2 < bv.len() && #[trigger] fb_keep(av, bv, j2) && fv[fi2] == fb_cand(
                        av,
                        bv,
                        j2,
                    );
                assert(fv[fi2].0 < fv[fi].0);
                if j2 > jstar {
                    assert(fb_cand(av, bv, jstar).0 < fb_cand(av, bv, j2).0);
                    assert(false);
                } else if j2 == jstar {
                    assert(false);
                } else {
                    let pd2 = fb_prev(av, bv[j2].0);
                    lemma_last_end_leq_char(av, (bv[j2].0 - 1) as u64);
                    assert(bv[j2].0 <= q0);
                    assert(av[pd2].1 < bv[j2].0);
                    assert(av[pd2].1 < av[ia].1);
                    assert(pd2 < ia);
                    assert(av[pd2].0 < kv);
                }
            }
            lemma_first_start_geq_at(fv, kv, fi);
        }
        Extent(r2.0, Position::Valid(q1))
    }

    fn tau_prime(&self, k: Position) -> (r: Extent) {
        let ghost av = self.a.extents();
        let ghost bv = self.b.extents();
        let ghost fv = self.extents();
        proof {
            self.a.lemma_extents_gc();
            self.b.lemma_extents_gc();
            lemma_fb_view_char(av, bv, bv.len() as int);
        }
        if let Position::NegativeInfinity = k {
            return Extent(Position::NegativeInfinity, Position::NegativeInfinity);
        }
        let ghost kv = bwd_key(k);
        // the last `b` extent ending at or before k
        let r0 = self.b.tau_prime(k);
        let ghost jo = last_end_leq(bv, kv);
        proof {
            lemma_last_end_leq_char(bv, kv);
        }
        // the tightest `a` extent wholly before it
        let r1 = self.a.tau_prime(r0.0.decrement());
        proof {
            if !r0.spec_is_valid() {
                assert(r1 == crate::extent::start_extent());
            }
        }
        if !r1.is_valid() {
            // no surviving candidate ends at or before k
            proof {
                assert forall|fi: int| 0 <= fi < fv.len() implies (#[trigger] fv[fi]).1 > kv by {
                    assert(fb_is_kept_cand(av, bv, bv.len() as int, fv[fi]));
                    let j = choose|j: int|
                        0 <= j < bv.len() && #[trigger] fb_keep(av, bv, j) && fv[fi] == fb_cand(
                            av,
                            bv,
                            j,
                        );
                    if bv[j].1 <= kv {
                        assert(j <= jo);
                        assert(jo >= 0);
                        let pd = fb_prev(av, bv[j].0);
                        lemma_last_end_leq_char(av, (bv[j].0 - 1) as u64);
                        assert(av[pd].1 < bv[j].0);
                        assert(bv[j].0 <= bv[jo].0);
                        assert(r0 == valid_extent(bv[jo]));
                        assert(bv[jo].0 > 0) by {
                            assert(av[pd].1 < bv[j].0);
                        }
                        assert(av[pd].1 <= bv[jo].0 - 1);
                        lemma_last_end_leq_char(av, (bv[jo].0 - 1) as u64);
                        assert(last_end_leq(av, (bv[jo].0 - 1) as u64) >= 0);
                        assert(false);
                    }
                }
                lemma_last_end_leq_at(fv, kv, -1);
            }
            return Extent(Position::NegativeInfinity, Position::NegativeInfinity);
        }
        // r0 is valid here: had `b` been exhausted, so would `a` have been
        let (p0, _qb) = r0.unwrap();
        let (p1, q1) = r1.unwrap();
        let ghost pd = fb_prev(av, p0);
        proof {
            assert(jo >= 0 && bv[jo] == (p0, _qb));
            lemma_last_end_leq_char(av, (p0 - 1) as u64);
            assert(pd >= 0 && av[pd] == (p1, q1));
            assert(q1 < p0);
        }
        // the earliest `b` extent past that predecessor: the shortest
        // candidate of the run, the one that survives
        let r2 = self.b.tau(Position::Valid(q1).increment());
        let ghost jd = first_start_geq(bv, fwd_key(Position::Valid(q1).spec_increment()));
        proof {
            assert(q1 < u64::MAX) by {
                assert(p0 <= u64::MAX);
            }
            lemma_first_start_geq_char(bv, (q1 + 1) as u64);
            assert(bv[jo].0 == p0 >= q1 + 1);
            assert(jd <= jo);
            assert(jd < bv.len());
            assert(r2 == valid_extent(bv[jd]));
            // the chosen b extent shares the same predecessor
            let pdd = fb_prev(av, bv[jd].0);
            assert(bv[jd].0 > q1);
            lemma_last_end_leq_char(av, (bv[jd].0 - 1) as u64);
            assert(av[pd].1 == q1 <= bv[jd].0 - 1);
            assert(pdd >= pd);
            assert(bv[jd].0 <= bv[jo].0);
            assert(av[pdd].1 < bv[jd].0);
            assert(av[pdd].1 <= p0 - 1);
            assert(pdd <= pd);
            assert(pdd == pd);
            assert(fb_qual(av, bv, jd));
            assert(fb_cand(av, bv, jd) == (p1, bv[jd].1));
            // jd survives: earlier qualifying candidates start earlier
            assert forall|j2: int| 0 <= j2 < jd && fb_qual(av, bv, j2) implies fb_cand(
                av,
                bv,
                j2,
            ).0 < p1 by {
                let pd2 = fb_prev(av, bv[j2].0);
                lemma_last_end_leq_char(av, (bv[j2].0 - 1) as u64);
                assert(bv[j2].0 <= q1);
                assert(av[pd2].1 < bv[j2].0);
                assert(av[pd2].1 < av[pd].1);
                assert(pd2 < pd);
                assert(av[pd2].0 < av[pd].0);
            }
            assert(fb_keep(av, bv, jd));
            assert(fv.contains(fb_cand(av, bv, jd)));
            let fi = choose|fi: int| 0 <= fi < fv.len() && fv[fi] == fb_cand(av, bv, jd);
            assert(fv[fi].1 == bv[jd].1 <= bv[jo].1);
            assert(fv[fi].1 <= kv);
            assert forall|fi2: int| fi < fi2 < fv.len() implies (#[trigger] fv[fi2]).1 > kv by {
                assert(fb_is_kept_cand(av, bv, bv.len() as int, fv[fi2]));
                let j2 = choose|j2: int|
                    0 <= j2 < bv.len() && #[trigger] fb_keep(av, bv, j2) && fv[fi2] == fb_cand(
                        av,
                        bv,
                        j2,
                    );
                assert(fv[fi2].0 > fv[fi].0);
                if j2 <= jd {
                    if j2 == jd {
                        assert(false);
                    } else {
                        assert(fb_cand(av, bv, j2).0 < fb_cand(av, bv, jd).0);
                        assert(false);
                    }
                } else {
                    // a later surviving candidate must outrun jo
                    if bv[j2].1 <= kv {
                        assert(j2 <= jo);
                        let pd2 = fb_prev(av, bv[j2].0);
                        lemma_last_end_leq_char(av, (bv[j2].0 - 1) as u64);
                        assert(bv[j2].0 <= bv[jo].0 == p0);
                        assert(av[pd2].1 < bv[j2].0);
                        assert(av[pd2].1 <= p0 - 1);
                        assert(pd2 <= pd);
                        assert(av[pd2].0 <= av[pd].0);
                        assert(fb_cand(av, bv, j2).0 <= p1);
                        assert(fb_cand(av, bv, jd).0 < fb_cand(av, bv, j2).0);
                        assert(false);
                    }
                }
            }
            lemma_last_end_leq_at(fv, kv, fi);
        }
        Extent(Position::Valid(p1), r2.1)
    }

    fn rho(&self, k: Position) -> (r: Extent) {
        proof {
            self.lemma_extents_gc();
        }
        if let Position::PositiveInfinity = k {
            return Extent(Position::PositiveInfinity, Position::PositiveInfinity);
        }
        let r1 = self.tau_prime(k.decrement());
        proof {
            lemma_rho_via_tau_prime_tau(self.extents(), k);
        }
        self.tau(r1.0.increment())
    }

    fn rho_prime(&self, k: Position) -> (r: Extent) {
        proof {
            self.lemma_extents_gc();
        }
        if let Position::NegativeInfinity = k {
            return Extent(Position::NegativeInfinity, Position::NegativeInfinity);
        }
        let r1 = self.tau(k.increment());
        proof {
            lemma_rho_prime_via_tau_tau_prime(self.extents(), k);
        }
        self.tau_prime(r1.1.decrement())
    }
}

} // verus!
