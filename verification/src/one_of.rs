//! The one-of operator: extents enclosing an extent of either operand.
//!
//! Its view merges the two child views and keeps only the minimal
//! extents — those with no other merged extent nested inside them.
//! Keeping the tighter of any nested pair restores the GC-list shape.

use vstd::prelude::*;

use crate::algebra::Algebra;
use crate::extent::{valid_extent, Extent, ValidExtent};
use crate::filtered::lemma_filter_subset;
use crate::gclist::{
    bwd_key, first_end_geq, first_start_geq, fwd_key, gc_list, last_end_leq, last_start_leq,
    lemma_first_end_geq_at, lemma_first_start_geq_at, lemma_first_start_geq_char,
    lemma_last_end_leq_at, lemma_last_end_leq_char, lemma_last_start_leq_at,
};
use crate::position::Position;

verus! {

/// Strict lexicographic order on extents: by start, then by end.
pub open spec fn lex_lt(x: ValidExtent, y: ValidExtent) -> bool {
    x.0 < y.0 || (x.0 == y.0 && x.1 < y.1)
}

/// Strictly lexicographically sorted.
pub open spec fn lex_sorted(s: Seq<ValidExtent>) -> bool {
    forall|i: int, j: int|
        #![trigger s[i], s[j]]
        0 <= i < j < s.len() ==> lex_lt(s[i], s[j])
}

/// The sorted union of two extent lists, each extent once.
pub open spec fn oo_union(a: Seq<ValidExtent>, b: Seq<ValidExtent>) -> Seq<ValidExtent>
    decreases a.len() + b.len(),
{
    if a.len() == 0 {
        b
    } else if b.len() == 0 {
        a
    } else if a[0] == b[0] {
        seq![a[0]] + oo_union(a.drop_first(), b.drop_first())
    } else if lex_lt(a[0], b[0]) {
        seq![a[0]] + oo_union(a.drop_first(), b)
    } else {
        seq![b[0]] + oo_union(a, b.drop_first())
    }
}

/// `e` occurs in one of the two lists.
pub open spec fn oo_member(a: Seq<ValidExtent>, b: Seq<ValidExtent>, e: ValidExtent) -> bool {
    a.contains(e) || b.contains(e)
}

/// `e` is minimal: no other merged extent nests strictly inside it.
pub open spec fn oo_keep(a: Seq<ValidExtent>, b: Seq<ValidExtent>, e: ValidExtent) -> bool {
    oo_member(a, b, e) && !(exists|f: ValidExtent|
        oo_member(a, b, f) && f != e && e.0 <= #[trigger] f.0 && f.1 <= e.1)
}

/// `oo_keep` as a reusable filter predicate.
pub open spec fn oo_keep_pred(a: Seq<ValidExtent>, b: Seq<ValidExtent>) -> spec_fn(
    ValidExtent,
) -> bool {
    |e: ValidExtent| oo_keep(a, b, e)
}

/// The view a one-of operator denotes: the minimal merged extents.
pub open spec fn one_of_view(av: Seq<ValidExtent>, bv: Seq<ValidExtent>) -> Seq<ValidExtent> {
    oo_union(av, bv).filter(oo_keep_pred(av, bv))
}

/// The merged union is sorted and holds exactly the members of the two
/// lists.
pub proof fn lemma_oo_union_char(a: Seq<ValidExtent>, b: Seq<ValidExtent>)
    requires
        gc_list(a),
        gc_list(b),
    ensures
        lex_sorted(oo_union(a, b)),
        forall|i: int|
            0 <= i < oo_union(a, b).len() ==> oo_member(a, b, #[trigger] oo_union(a, b)[i]),
        forall|x: ValidExtent| oo_member(a, b, x) ==> #[trigger] oo_union(a, b).contains(x),
    decreases a.len() + b.len(),
{
    let u = oo_union(a, b);
    if a.len() == 0 || b.len() == 0 {
        assert forall|x: ValidExtent| oo_member(a, b, x) implies #[trigger] u.contains(x) by {
            if a.contains(x) {
                let i = choose|i: int| 0 <= i < a.len() && a[i] == x;
                assert(a.len() > 0);
            }
            if b.contains(x) {
                let i = choose|i: int| 0 <= i < b.len() && b[i] == x;
                assert(b.len() > 0);
            }
        }
    } else {
        let ad = a.drop_first();
        let bd = b.drop_first();
        assert(forall|i: int| 0 <= i < ad.len() ==> ad[i] == a[i + 1]);
        assert(forall|i: int| 0 <= i < bd.len() ==> bd[i] == b[i + 1]);
        assert(gc_list(ad));
        assert(gc_list(bd));
        let (h, ta, tb): (ValidExtent, Seq<ValidExtent>, Seq<ValidExtent>) = if a[0] == b[0] {
            (a[0], ad, bd)
        } else if lex_lt(a[0], b[0]) {
            (a[0], ad, b)
        } else {
            (b[0], a, bd)
        };
        lemma_oo_union_char(ta, tb);
        let ut = oo_union(ta, tb);
        assert(u == seq![h] + ut);
        // the head precedes everything in the tail union
        assert forall|i: int| 0 <= i < ut.len() implies lex_lt(h, #[trigger] ut[i]) by {
            assert(oo_member(ta, tb, ut[i]));
            if ta.contains(ut[i]) {
                let m = choose|m: int| 0 <= m < ta.len() && ta[m] == ut[i];
                if a[0] == b[0] || lex_lt(a[0], b[0]) {
                    assert(ut[i] == a[m + 1]);
                } else {
                    assert(ut[i] == a[m]);
                    if m == 0 {
                        assert(lex_lt(b[0], a[0]));
                    }
                }
            } else {
                let m = choose|m: int| 0 <= m < tb.len() && tb[m] == ut[i];
                if a[0] == b[0] || !lex_lt(a[0], b[0]) {
                    assert(ut[i] == b[m + 1]);
                } else {
                    assert(ut[i] == b[m]);
                    if m == 0 {
                        assert(lex_lt(a[0], b[0]));
                    }
                }
            }
        }
        assert forall|i: int, j: int|
            #![trigger u[i], u[j]]
            0 <= i < j < u.len() implies lex_lt(u[i], u[j]) by {
            if i == 0 {
                assert(u[j] == ut[j - 1]);
            } else {
                assert(u[i] == ut[i - 1] && u[j] == ut[j - 1]);
            }
        }
        assert forall|i: int| 0 <= i < u.len() implies oo_member(a, b, #[trigger] u[i]) by {
            if i == 0 {
                assert(a.contains(a[0]));
                assert(b.contains(b[0]));
            } else {
                assert(u[i] == ut[i - 1]);
                assert(oo_member(ta, tb, ut[i - 1]));
                if ta.contains(ut[i - 1]) {
                    let m = choose|m: int| 0 <= m < ta.len() && ta[m] == ut[i - 1];
                    if ta == ad {
                        assert(a[m + 1] == ut[i - 1]);
                        assert(a.contains(a[m + 1]));
                    } else {
                        assert(a.contains(ut[i - 1]));
                    }
                } else {
                    let m = choose|m: int| 0 <= m < tb.len() && tb[m] == ut[i - 1];
                    if tb == bd {
                        assert(b[m + 1] == ut[i - 1]);
                        assert(b.contains(b[m + 1]));
                    } else {
                        assert(b.contains(ut[i - 1]));
                    }
                }
            }
        }
        assert forall|x: ValidExtent| oo_member(a, b, x) implies #[trigger] u.contains(x) by {
            if x == h {
                assert(u[0] == x);
            } else {
                if a.contains(x) {
                    let m = choose|m: int| 0 <= m < a.len() && a[m] == x;
                    if ta == ad {
                        if m > 0 {
                            assert(ad[m - 1] == x);
                            assert(ta.contains(x));
                        } else {
                            // a[0] == h handled above, or b went first
                            assert(h == b[0] && lex_lt(b[0], a[0]));
                            assert(ta == a);
                            assert(ta.contains(x));
                        }
                    } else {
                        assert(ta == a);
                        assert(ta.contains(x));
                    }
                    assert(oo_member(ta, tb, x));
                } else {
                    let m = choose|m: int| 0 <= m < b.len() && b[m] == x;
                    if tb == bd {
                        if m > 0 {
                            assert(bd[m - 1] == x);
                            assert(tb.contains(x));
                        } else {
                            assert(h == a[0] && lex_lt(a[0], b[0]));
                            assert(tb == b);
                            assert(tb.contains(x));
                        }
                    } else {
                        assert(tb == b);
                        assert(tb.contains(x));
                    }
                    assert(oo_member(ta, tb, x));
                }
                assert(ut.contains(x));
                let m2 = choose|m2: int| 0 <= m2 < ut.len() && ut[m2] == x;
                assert(u[m2 + 1] == x);
            }
        }
    }
}

/// Filtering preserves strict lexicographic order.
pub proof fn lemma_filter_lex(s: Seq<ValidExtent>, p: spec_fn(ValidExtent) -> bool)
    requires
        lex_sorted(s),
    ensures
        lex_sorted(s.filter(p)),
    decreases s.len(),
{
    reveal(Seq::filter);
    if s.len() != 0 {
        let d = s.drop_last();
        assert(forall|i: int| 0 <= i < d.len() ==> d[i] == s[i]);
        assert(lex_sorted(d));
        lemma_filter_lex(d, p);
        lemma_filter_subset(d, p);
        let fd = d.filter(p);
        let last = s.last();
        if p(last) {
            let f = fd.push(last);
            assert(s.filter(p) == f);
            assert forall|i: int| 0 <= i < fd.len() implies lex_lt(#[trigger] fd[i], last) by {
                assert(d.contains(fd[i]));
                let m = choose|m: int| 0 <= m < d.len() && d[m] == fd[i];
                assert(s[m] == fd[i] && m < s.len() - 1 && s[s.len() - 1] == last);
            }
            assert forall|i: int, j: int|
                #![trigger f[i], f[j]]
                0 <= i < j < f.len() implies lex_lt(f[i], f[j]) by {
                if j < fd.len() {
                    assert(f[i] == fd[i] && f[j] == fd[j]);
                } else {
                    assert(f[j] == last && f[i] == fd[i]);
                }
            }
        }
    }
}

/// The minimal merged extents form a GC-list whose members are exactly
/// the kept extents.
pub proof fn lemma_oo_view_char(av: Seq<ValidExtent>, bv: Seq<ValidExtent>)
    requires
        gc_list(av),
        gc_list(bv),
    ensures
        gc_list(one_of_view(av, bv)),
        forall|i: int|
            0 <= i < one_of_view(av, bv).len() ==> oo_keep(av, bv, #[trigger] one_of_view(av, bv)[i]),
        forall|x: ValidExtent|
            oo_keep(av, bv, x) ==> #[trigger] one_of_view(av, bv).contains(x),
{
    let u = oo_union(av, bv);
    let ov = one_of_view(av, bv);
    lemma_oo_union_char(av, bv);
    lemma_filter_lex(u, oo_keep_pred(av, bv));
    lemma_filter_subset(u, oo_keep_pred(av, bv));
    assert forall|x: ValidExtent| oo_keep(av, bv, x) implies #[trigger] ov.contains(x) by {
        assert(u.contains(x));
        let m = choose|m: int| 0 <= m < u.len() && u[m] == x;
        u.lemma_filter_contains(oo_keep_pred(av, bv), m);
    }
    assert forall|i: int, j: int|
        #![trigger ov[i], ov[j]]
        0 <= i < j < ov.len() implies ov[i].0 < ov[j].0 && ov[i].1 < ov[j].1 by {
        assert(lex_lt(ov[i], ov[j]));
        assert(oo_keep(av, bv, ov[i]) && oo_keep(av, bv, ov[j]));
        if ov[i].0 == ov[j].0 {
            // the wider extent would not be minimal
            assert(oo_member(av, bv, ov[i]) && ov[i] != ov[j] && ov[j].0 <= ov[i].0 && ov[i].1
                <= ov[j].1);
            assert(false);
        }
        if ov[j].1 <= ov[i].1 {
            assert(oo_member(av, bv, ov[j]) && ov[j] != ov[i] && ov[i].0 <= ov[j].0 && ov[j].1
                <= ov[i].1);
            assert(false);
        }
    }
    assert forall|i: int| 0 <= i < ov.len() implies (#[trigger] ov[i]).0 <= ov[i].1 by {
        assert(oo_member(av, bv, ov[i]));
        if av.contains(ov[i]) {
            let m = choose|m: int| 0 <= m < av.len() && av[m] == ov[i];
        } else {
            let m = choose|m: int| 0 <= m < bv.len() && bv[m] == ov[i];
        }
    }
}

/// Finds the minimal extents drawn from either list.
#[derive(Debug, Copy, Clone)]
pub struct OneOf<A, B> where A: Algebra, B: Algebra {
    a: A,
    b: B,
}

impl<A, B> OneOf<A, B> where A: Algebra, B: Algebra {
    /// Composes the operator; well-formed children make it well-formed,
    /// and its view holds the minimal merged extents.
    pub fn new(a: A, b: B) -> (r: Self)
        ensures
            a.inv() && b.inv() ==> r.inv(),
            r.extents() == one_of_view(a.extents(), b.extents()),
    {
        OneOf { a, b }
    }
}

impl<A, B> Algebra for OneOf<A, B> where A: Algebra, B: Algebra {
    closed spec fn extents(&self) -> Seq<ValidExtent> {
        one_of_view(self.a.extents(), self.b.extents())
    }

    closed spec fn inv(&self) -> bool {
        self.a.inv() && self.b.inv()
    }

    proof fn lemma_extents_gc(&self) {
        self.a.lemma_extents_gc();
        self.b.lemma_extents_gc();
        lemma_oo_view_char(self.a.extents(), self.b.extents());
    }

    fn tau(&self, k: Position) -> (r: Extent) {
        let ghost av = self.a.extents();
        let ghost bv = self.b.extents();
        let ghost ov = self.extents();
        proof {
            self.a.lemma_extents_gc();
            self.b.lemma_extents_gc();
            lemma_oo_view_char(av, bv);
        }
        if let Position::PositiveInfinity = k {
            return Extent(Position::PositiveInfinity, Position::PositiveInfinity);
        }
        let ghost kv = fwd_key(k);
        let ra = self.a.tau(k);
        let rb = self.b.tau(k);
        let ghost ia = first_start_geq(av, kv);
        let ghost jb = first_start_geq(bv, kv);
        proof {
            lemma_first_start_geq_char(av, kv);
            lemma_first_start_geq_char(bv, kv);
        }
        // take the extent ending first; on a tie, the tighter one
        let r = if ra.1.lt(rb.1) {
            ra
        } else if rb.1.lt(ra.1) {
            rb
        } else {
            let p = if ra.0.le(rb.0) {
                rb.0
            } else {
                ra.0
            };
            Extent(p, ra.1)
        };
        proof {
            if !r.spec_is_valid() {
                // both children are exhausted, so the view is too
                assert(ia == av.len() && jb == bv.len());
                assert forall|fi: int| 0 <= fi < ov.len() implies (#[trigger] ov[fi]).0 < kv by {
                    assert(oo_keep(av, bv, ov[fi]));
                    if av.contains(ov[fi]) {
                        let m = choose|m: int| 0 <= m < av.len() && av[m] == ov[fi];
                    } else {
                        let m = choose|m: int| 0 <= m < bv.len() && bv[m] == ov[fi];
                    }
                }
                lemma_first_start_geq_at(ov, kv, ov.len() as int);
            } else {
                let e = r.spec_unwrap();
                // e sits in one of the lists
                if ra.spec_is_valid() && r == ra {
                    assert(e == av[ia] && av.contains(e));
                } else if rb.spec_is_valid() && (r == rb || (!ra.spec_is_valid())) {
                    assert(e == bv[jb] && bv.contains(e));
                } else {
                    // tie between two valid candidates
                    assert(ra.spec_is_valid() && rb.spec_is_valid());
                    if av[ia].0 >= bv[jb].0 {
                        assert(e == av[ia] && av.contains(e));
                    } else {
                        assert(e == bv[jb] && bv.contains(e));
                    }
                }
                assert(oo_member(av, bv, e));
                assert(ra.spec_is_valid() ==> e.1 <= av[ia].1);
                assert(rb.spec_is_valid() ==> e.1 <= bv[jb].1);
                assert(e.0 >= kv);
                // e is minimal among extents at or after kv
                assert(oo_keep(av, bv, e)) by {
                    if exists|f: ValidExtent|
                        oo_member(av, bv, f) && f != e && e.0 <= #[trigger] f.0 && f.1 <= e.1 {
                        let f = choose|f: ValidExtent|
                            oo_member(av, bv, f) && f != e && e.0 <= #[trigger] f.0 && f.1 <= e.1;
                        if av.contains(f) {
                            let m = choose|m: int| 0 <= m < av.len() && av[m] == f;
                            assert(f.0 >= kv);
                            assert(m >= ia);
                            assert(f.1 >= av[ia].1);
                            assert(ra.spec_is_valid());
                            assert(f.1 == e.1 && e.1 == av[ia].1);
                            assert(m == ia);
                            assert(e.0 <= f.0 == av[ia].0);
                            if r == ra {
                                assert(f == e);
                            } else if rb.spec_is_valid() && r == rb {
                                assert(bv[jb].1 < av[ia].1);
                                assert(false);
                            } else {
                                assert(e.0 >= av[ia].0);
                                assert(f == e);
                            }
                            assert(false);
                        } else {
                            let m = choose|m: int| 0 <= m < bv.len() && bv[m] == f;
                            assert(f.0 >= kv);
                            assert(m >= jb);
                            assert(f.1 >= bv[jb].1);
                            assert(rb.spec_is_valid());
                            assert(f.1 == e.1 && e.1 == bv[jb].1);
                            assert(m == jb);
                            assert(e.0 <= f.0 == bv[jb].0);
                            if r == rb {
                                assert(f == e);
                            } else if ra.spec_is_valid() && r == ra {
                                assert(av[ia].1 < bv[jb].1);
                                assert(false);
                            } else {
                                assert(e.0 >= bv[jb].0);
                                assert(f == e);
                            }
                            assert(false);
                        }
                    }
                }
                assert(ov.contains(e));
                let fi = choose|fi: int| 0 <= fi < ov.len() && ov[fi] == e;
                assert forall|fi2: int| 0 <= fi2 < fi implies (#[trigger] ov[fi2]).0 < kv by {
                    let g = ov[fi2];
                    assert(g.0 < ov[fi].0);
                    if g.0 >= kv {
                        assert(oo_keep(av, bv, g));
                        if av.contains(g) {
                            let m = choose|m: int| 0 <= m < av.len() && av[m] == g;
                            assert(m >= ia);
                            assert(g.1 >= av[ia].1 >= e.1);
                        } else {
                            let m = choose|m: int| 0 <= m < bv.len() && bv[m] == g;
                            assert(m >= jb);
                            assert(g.1 >= bv[jb].1 >= e.1);
                        }
                        // e nests inside g, so g is not minimal
                        assert(oo_member(av, bv, e) && e != g && g.0 <= e.0 && e.1 <= g.1);
                        assert(false);
                    }
                }
                lemma_first_start_geq_at(ov, kv, fi);
            }
        }
        r
    }

    fn tau_prime(&self, k: Position) -> (r: Extent) {
        let ghost av = self.a.extents();
        let ghost bv = self.b.extents();
        let ghost ov = self.extents();
        proof {
            self.a.lemma_extents_gc();
            self.b.lemma_extents_gc();
            lemma_oo_view_char(av, bv);
        }
        if let Position::NegativeInfinity = k {
            return Extent(Position::NegativeInfinity, Position::NegativeInfinity);
        }
        let ghost kv = bwd_key(k);
        let ra = self.a.tau_prime(k);
        let rb = self.b.tau_prime(k);
        let ghost ia = last_end_leq(av, kv);
        let ghost jb = last_end_leq(bv, kv);
        proof {
            lemma_last_end_leq_char(av, kv);
            lemma_last_end_leq_char(bv, kv);
        }
        // take the extent starting last; on a tie, the tighter one
        let r = if rb.0.lt(ra.0) {
            ra
        } else if ra.0.lt(rb.0) {
            rb
        } else {
            let q = if ra.1.le(rb.1) {
                ra.1
            } else {
                rb.1
            };
            Extent(ra.0, q)
        };
        proof {
            if !r.spec_is_valid() {
                assert(ia == -1 && jb == -1);
                assert forall|fi: int| 0 <= fi < ov.len() implies (#[trigger] ov[fi]).1 > kv by {
                    assert(oo_keep(av, bv, ov[fi]));
                    if av.contains(ov[fi]) {
                        let m = choose|m: int| 0 <= m < av.len() && av[m] == ov[fi];
                    } else {
                        let m = choose|m: int| 0 <= m < bv.len() && bv[m] == ov[fi];
                    }
                }
                lemma_last_end_leq_at(ov, kv, -1);
            } else {
                let e = r.spec_unwrap();
                if ra.spec_is_valid() && r == ra {
                    assert(e == av[ia] && av.contains(e));
                } else if rb.spec_is_valid() && (r == rb || (!ra.spec_is_valid())) {
                    assert(e == bv[jb] && bv.contains(e));
                } else {
                    assert(ra.spec_is_valid() && rb.spec_is_valid());
                    if av[ia].1 <= bv[jb].1 {
                        assert(e == av[ia] && av.contains(e));
                    } else {
                        assert(e == bv[jb] && bv.contains(e));
                    }
                }
                assert(oo_member(av, bv, e));
                assert(ra.spec_is_valid() ==> e.0 >= av[ia].0);
                assert(rb.spec_is_valid() ==> e.0 >= bv[jb].0);
                assert(e.1 <= kv);
                assert(oo_keep(av, bv, e)) by {
                    if exists|f: ValidExtent|
                        oo_member(av, bv, f) && f != e && e.0 <= #[trigger] f.0 && f.1 <= e.1 {
                        let f = choose|f: ValidExtent|
                            oo_member(av, bv, f) && f != e && e.0 <= #[trigger] f.0 && f.1 <= e.1;
                        if av.contains(f) {
                            let m = choose|m: int| 0 <= m < av.len() && av[m] == f;
                            assert(f.1 <= kv);
                            assert(m <= ia);
                            assert(f.0 <= av[ia].0);
                            assert(ra.spec_is_valid());
                            assert(f.0 == e.0 && e.0 == av[ia].0);
                            assert(m == ia);
                            assert(f.1 <= e.1);
                            if r == ra {
                                assert(f == e);
                            } else if rb.spec_is_valid() && r == rb {
                                assert(bv[jb].0 > av[ia].0);
                                assert(false);
                            } else {
                                assert(e.1 <= av[ia].1 == f.1);
                                assert(f == e);
                            }
                            assert(false);
                        } else {
                            let m = choose|m: int| 0 <= m < bv.len() && bv[m] == f;
                            assert(f.1 <= kv);
                            assert(m <= jb);
                            assert(f.0 <= bv[jb].0);
                            assert(rb.spec_is_valid());
                            assert(f.0 == e.0 && e.0 == bv[jb].0);
                            assert(m == jb);
                            assert(f.1 <= e.1);
                            if r == rb {
                                assert(f == e);
                            } else if ra.spec_is_valid() && r == ra {
                                assert(av[ia].0 > bv[jb].0);
                                assert(false);
                            } else {
                                assert(e.1 <= bv[jb].1 == f.1);
                                assert(f == e);
                            }
                            assert(false);
                        }
                    }
                }
                assert(ov.contains(e));
                let fi = choose|fi: int| 0 <= fi < ov.len() && ov[fi] == e;
                assert forall|fi2: int| fi < fi2 < ov.len() implies (#[trigger] ov[fi2]).1
                    > kv by {
                    let g = ov[fi2];
                    assert(g.1 > ov[fi].1);
                    if g.1 <= kv {
                        assert(oo_keep(av, bv, g));
                        if av.contains(g) {
                            let m = choose|m: int| 0 <= m < av.len() && av[m] == g;
                            assert(m <= ia);
                            assert(g.0 <= av[ia].0 <= e.0);
                        } else {
                            let m = choose|m: int| 0 <= m < bv.len() && bv[m] == g;
                            assert(m <= jb);
                            assert(g.0 <= bv[jb].0 <= e.0);
                        }
                        assert(oo_member(av, bv, e) && e != g && g.0 <= e.0 && e.1 <= g.1);
                        assert(false);
                    }
                }
                lemma_last_end_leq_at(ov, kv, fi);
            }
        }
        r
    }

    fn rho(&self, k: Position) -> (r: Extent) {
        let ghost ov = self.extents();
        proof {
            self.lemma_extents_gc();
        }
        if let Position::PositiveInfinity = k {
            return Extent(Position::PositiveInfinity, Position::PositiveInfinity);
        }
        let rt = self.tau_prime(k);
        let ghost i1 = last_end_leq(ov, bwd_key(k));
        proof {
            lemma_last_end_leq_char(ov, bwd_key(k));
        }
        if k.lt(rt.1.increment()) {
            // the backward pass already reached past k
            proof {
                assert(!(k is NegativeInfinity));
                assert(i1 >= 0 && rt == valid_extent(ov[i1]));
                assert(ov[i1].1 == fwd_key(k));
                assert forall|j: int| 0 <= j < i1 implies (#[trigger] ov[j]).1 < fwd_key(k) by {
                    assert(ov[j].1 < ov[i1].1);
                }
                lemma_first_end_geq_at(ov, fwd_key(k), i1);
            }
            return rt;
        }
        let cursor = rt.0;
        loop
            invariant
                self.inv(),
                ov == self.extents(),
                gc_list(ov),
                !(k is PositiveInfinity),
                i1 == last_end_leq(ov, bwd_key(k)),
                -1 <= i1 < ov.len(),
                forall|j: int| i1 < j < ov.len() ==> (#[trigger] ov[j]).1 > bwd_key(k),
                i1 >= 0 ==> ov[i1].1 <= bwd_key(k),
                rt == crate::gclist::pos_tau_prime(ov, k),
                !k.spec_lt(rt.1.spec_increment()),
                cursor == rt.0,
            decreases 0int,
        {
            let rn = self.tau(cursor.increment());
            proof {
                if k is NegativeInfinity {
                    assert(rt == crate::extent::start_extent());
                    lemma_first_start_geq_at(ov, 0, 0);
                    lemma_first_end_geq_at(ov, fwd_key(k), 0);
                } else {
                    if i1 >= 0 {
                        assert(rt == valid_extent(ov[i1]));
                        let q = ov[i1].1;
                        assert(q < bwd_key(k)) by {
                            if q == u64::MAX {
                                assert(k.spec_lt(rt.1.spec_increment()));
                            }
                        }
                        assert(fwd_key(k) == bwd_key(k));
                        let p = ov[i1].0;
                        if p == u64::MAX {
                            if i1 < ov.len() - 1 {
                                assert(ov[i1 + 1].0 > u64::MAX);
                            }
                            assert(i1 == ov.len() - 1);
                            assert forall|j: int| 0 <= j < ov.len() implies (#[trigger] ov[j]).1
                                < fwd_key(k) by {
                                assert(ov[j].1 <= ov[i1].1);
                            }
                            lemma_first_end_geq_at(ov, fwd_key(k), ov.len() as int);
                        } else {
                            assert forall|j: int| 0 <= j <= i1 implies (#[trigger] ov[j]).0 < p
                                + 1 by {
                                assert(ov[j].0 <= ov[i1].0);
                            }
                            lemma_first_start_geq_at(ov, (p + 1) as u64, i1 + 1);
                            assert forall|j: int| 0 <= j <= i1 implies (#[trigger] ov[j]).1
                                < fwd_key(k) by {
                                assert(ov[j].1 <= ov[i1].1);
                            }
                            lemma_first_end_geq_at(ov, fwd_key(k), i1 + 1);
                        }
                    } else {
                        assert(rt == crate::extent::start_extent());
                        lemma_first_start_geq_at(ov, 0, 0);
                        assert forall|j: int| 0 <= j < 0 implies (#[trigger] ov[j]).1 < fwd_key(
                            k,
                        ) by {
                        }
                        lemma_first_end_geq_at(ov, fwd_key(k), 0);
                    }
                }
                assert(rn == crate::gclist::pos_rho(ov, k));
                assert(k.spec_le(rn.1));
            }
            if k.le(rn.1) {
                return rn;
            }
            proof {
                assert(false);
            }
        }
    }

    fn rho_prime(&self, k: Position) -> (r: Extent) {
        let ghost ov = self.extents();
        proof {
            self.lemma_extents_gc();
        }
        if let Position::NegativeInfinity = k {
            return Extent(Position::NegativeInfinity, Position::NegativeInfinity);
        }
        let rt = self.tau(k);
        let ghost i1 = first_start_geq(ov, fwd_key(k));
        proof {
            lemma_first_start_geq_char(ov, fwd_key(k));
        }
        if rt.0.decrement().lt(k) {
            // the forward pass starts at or before k
            proof {
                assert(!(k is PositiveInfinity));
                assert(i1 < ov.len() && rt == valid_extent(ov[i1]));
                assert(ov[i1].0 <= bwd_key(k));
                assert forall|j: int| i1 < j < ov.len() implies (#[trigger] ov[j]).0 > bwd_key(
                    k,
                ) by {
                    assert(ov[j].0 > ov[i1].0);
                }
                lemma_last_start_leq_at(ov, bwd_key(k), i1);
            }
            return rt;
        }
        let cursor = rt.1;
        loop
            invariant
                self.inv(),
                ov == self.extents(),
                gc_list(ov),
                !(k is NegativeInfinity),
                i1 == first_start_geq(ov, fwd_key(k)),
                0 <= i1 <= ov.len(),
                forall|j: int| 0 <= j < i1 ==> (#[trigger] ov[j]).0 < fwd_key(k),
                i1 < ov.len() ==> ov[i1].0 >= fwd_key(k),
                rt == crate::gclist::pos_tau(ov, k),
                !rt.0.spec_decrement().spec_lt(k),
                cursor == rt.1,
            decreases 0int,
        {
            let rn = self.tau_prime(cursor.decrement());
            proof {
                if k is PositiveInfinity {
                    assert(rt == crate::extent::end_extent());
                    lemma_last_end_leq_at(ov, u64::MAX, ov.len() - 1);
                    lemma_last_start_leq_at(ov, bwd_key(k), ov.len() - 1);
                } else {
                    if i1 < ov.len() {
                        assert(rt == valid_extent(ov[i1]));
                        let p = ov[i1].0;
                        assert(p > bwd_key(k)) by {
                            if p == 0 {
                                assert(rt.0.spec_decrement().spec_lt(k));
                            }
                        }
                        assert(fwd_key(k) == bwd_key(k));
                        let q = ov[i1].1;
                        if q == 0 {
                            if i1 > 0 {
                                assert(ov[i1 - 1].1 < ov[i1].1);
                            }
                            assert(i1 == 0);
                            assert forall|j: int| 0 <= j < ov.len() implies (#[trigger] ov[j]).0
                                > bwd_key(k) by {
                                assert(ov[j].0 >= ov[i1].0);
                            }
                            lemma_last_start_leq_at(ov, bwd_key(k), -1);
                        } else {
                            assert forall|j: int| i1 <= j < ov.len() implies (#[trigger] ov[j]).1
                                > q - 1 by {
                                assert(ov[j].1 >= ov[i1].1);
                            }
                            lemma_last_end_leq_at(ov, (q - 1) as u64, i1 - 1);
                            assert forall|j: int| i1 <= j < ov.len() implies (#[trigger] ov[j]).0
                                > bwd_key(k) by {
                                assert(ov[j].0 >= ov[i1].0);
                            }
                            lemma_last_start_leq_at(ov, bwd_key(k), i1 - 1);
                        }
                    } else {
                        assert(rt == crate::extent::end_extent());
                        lemma_last_end_leq_at(ov, u64::MAX, ov.len() - 1);
                        assert forall|j: int| i1 <= j < ov.len() implies (#[trigger] ov[j]).0
                            > bwd_key(k) by {
                        }
                        lemma_last_start_leq_at(ov, bwd_key(k), ov.len() - 1);
                    }
                }
                assert(rn == crate::gclist::pos_rho_prime(ov, k));
                assert(rn.0.spec_le(k));
            }
            if rn.0.le(k) {
                return rn;
            }
            proof {
                assert(false);
            }
        }
    }
}

} // verus!
