//! Filtered views: the model of the four containment operators.
//!
//! Each containment operator denotes a *filter* of its first child's
//! view — the extents that are (or are not) contained in, or contain,
//! an extent of the second child.  This module shows that filtering a
//! GC-list yields a GC-list, and locates the answers of the four
//! primitives inside a filtered list: an element that satisfies the
//! predicate, meets the positional threshold, and is preceded (or
//! followed) only by elements that miss one of the two is exactly the
//! primitive's answer.

use vstd::prelude::*;

use vstd::seq_lib::*;

use crate::extent::{end_extent, start_extent, valid_extent, ValidExtent};
use crate::gclist::{
    bwd_key, fwd_key, gc_list, lemma_first_end_geq_at, lemma_first_start_geq_at,
    lemma_last_end_leq_at, lemma_last_start_leq_at, pos_rho, pos_rho_prime, pos_tau,
    pos_tau_prime,
};
use crate::position::Position;

verus! {

/// Some extent of `b` encloses `e`: the needle lies in a haystack.
pub open spec fn covered_by(b: Seq<ValidExtent>, e: ValidExtent) -> bool {
    exists|m: int| 0 <= m < b.len() && (#[trigger] b[m]).0 <= e.0 && e.1 <= b[m].1
}

/// `e` encloses some extent of `b`: the haystack holds a needle.
pub open spec fn covers(b: Seq<ValidExtent>, e: ValidExtent) -> bool {
    exists|m: int| 0 <= m < b.len() && e.0 <= (#[trigger] b[m]).0 && b[m].1 <= e.1
}

/// `covered_by` as a reusable filter predicate.
pub open spec fn covered_by_pred(b: Seq<ValidExtent>) -> spec_fn(ValidExtent) -> bool {
    |e: ValidExtent| covered_by(b, e)
}

/// The negation of `covered_by` as a filter predicate.
pub open spec fn not_covered_by_pred(b: Seq<ValidExtent>) -> spec_fn(ValidExtent) -> bool {
    |e: ValidExtent| !covered_by(b, e)
}

/// `covers` as a reusable filter predicate.
pub open spec fn covers_pred(b: Seq<ValidExtent>) -> spec_fn(ValidExtent) -> bool {
    |e: ValidExtent| covers(b, e)
}

/// The negation of `covers` as a filter predicate.
pub open spec fn not_covers_pred(b: Seq<ValidExtent>) -> spec_fn(ValidExtent) -> bool {
    |e: ValidExtent| !covers(b, e)
}

/// Every element of a filtered sequence satisfies the predicate and
/// occurs in the original sequence.
pub proof fn lemma_filter_subset(s: Seq<ValidExtent>, p: spec_fn(ValidExtent) -> bool)
    ensures
        forall|i: int|
            0 <= i < s.filter(p).len() ==> p(#[trigger] s.filter(p)[i]) && s.contains(
                s.filter(p)[i],
            ),
    decreases s.len(),
{
    reveal(Seq::filter);
    if s.len() != 0 {
        let d = s.drop_last();
        lemma_filter_subset(d, p);
        assert forall|i: int| 0 <= i < s.filter(p).len() implies p(#[trigger] s.filter(p)[i])
            && s.contains(s.filter(p)[i]) by {
            let f = s.filter(p);
            if i < d.filter(p).len() {
                assert(d.filter(p)[i] == f[i]);
                let m = choose|m: int| 0 <= m < d.len() && d[m] == d.filter(p)[i];
                assert(s[m] == f[i]);
            } else {
                assert(f[i] == s.last());
                assert(s[s.len() - 1] == s.last());
            }
        }
    }
}

/// Filtering preserves the GC-list shape: the kept elements stay
/// strictly monotonic in both coordinates.
pub proof fn lemma_filter_gc(s: Seq<ValidExtent>, p: spec_fn(ValidExtent) -> bool)
    requires
        gc_list(s),
    ensures
        gc_list(s.filter(p)),
    decreases s.len(),
{
    reveal(Seq::filter);
    if s.len() != 0 {
        let d = s.drop_last();
        assert(forall|i: int| 0 <= i < d.len() ==> d[i] == s[i]);
        assert(gc_list(d));
        lemma_filter_gc(d, p);
        lemma_filter_subset(d, p);
        let fd = d.filter(p);
        let last = s.last();
        if p(last) {
            let f = fd.push(last);
            assert(s.filter(p) == f);
            assert forall|i: int| 0 <= i < fd.len() implies (#[trigger] fd[i]).0 < last.0
                && fd[i].1 < last.1 by {
                assert(d.contains(fd[i]));
                let m = choose|m: int| 0 <= m < d.len() && d[m] == fd[i];
                assert(s[m] == fd[i] && m < s.len() - 1 && s[s.len() - 1] == last);
            }
            assert forall|i: int, j: int|
                #![trigger f[i], f[j]]
                0 <= i < j < f.len() implies f[i].0 < f[j].0 && f[i].1 < f[j].1 by {
                if j < fd.len() {
                    assert(f[i] == fd[i] && f[j] == fd[j]);
                } else {
                    assert(f[j] == last && f[i] == fd[i]);
                }
            }
            assert forall|i: int| 0 <= i < f.len() implies (#[trigger] f[i]).0 <= f[i].1 by {
                if i < fd.len() {
                    assert(f[i] == fd[i]);
                } else {
                    assert(f[i] == last && s[s.len() - 1] == last);
                }
            }
        }
    }
}

/// Locates a filtered element in the original list.
proof fn lemma_filter_locate(s: Seq<ValidExtent>, p: spec_fn(ValidExtent) -> bool, fi: int) -> (m:
    int)
    requires
        gc_list(s),
        0 <= fi < s.filter(p).len(),
    ensures
        0 <= m < s.len(),
        s[m] == s.filter(p)[fi],
        p(s[m]),
{
    lemma_filter_subset(s, p);
    choose|m: int| 0 <= m < s.len() && s[m] == s.filter(p)[fi]
}

/// In a filtered GC-list, the element at `i` of the base list is the
/// `tau` answer when it passes the filter, starts at or after the
/// query, and everything before it misses one of the two.
pub proof fn lemma_filter_tau_found(
    s: Seq<ValidExtent>,
    p: spec_fn(ValidExtent) -> bool,
    k: Position,
    i: int,
)
    requires
        gc_list(s),
        !(k is PositiveInfinity),
        0 <= i < s.len(),
        p(s[i]),
        s[i].0 >= fwd_key(k),
        forall|j: int| 0 <= j < i ==> ((#[trigger] s[j]).0 < fwd_key(k) || !p(s[j])),
    ensures
        pos_tau(s.filter(p), k) == valid_extent(s[i]),
{
    let f = s.filter(p);
    s.lemma_filter_contains(p, i);
    lemma_filter_gc(s, p);
    let fi = choose|fi: int| 0 <= fi < f.len() && f[fi] == s[i];
    assert forall|j2: int| 0 <= j2 < fi implies (#[trigger] f[j2]).0 < fwd_key(k) by {
        let m = lemma_filter_locate(s, p, j2);
        assert(f[j2].0 < f[fi].0);
        assert(m < i);
    }
    lemma_first_start_geq_at(f, fwd_key(k), fi);
}

/// When every element at or after the query misses the filter, `tau`
/// over the filtered list finds nothing.
pub proof fn lemma_filter_tau_none(s: Seq<ValidExtent>, p: spec_fn(ValidExtent) -> bool, k: Position)
    requires
        gc_list(s),
        forall|j: int|
            0 <= j < s.len() && (#[trigger] s[j]).0 >= fwd_key(k) ==> !p(s[j]),
    ensures
        pos_tau(s.filter(p), k) == end_extent(),
{
    if !(k is PositiveInfinity) {
        let f = s.filter(p);
        assert forall|j2: int| 0 <= j2 < f.len() implies (#[trigger] f[j2]).0 < fwd_key(k) by {
            let m = lemma_filter_locate(s, p, j2);
        }
        lemma_first_start_geq_at(f, fwd_key(k), f.len() as int);
    }
}

/// The `rho` analogue of `lemma_filter_tau_found`, thresholding ends.
pub proof fn lemma_filter_rho_found(
    s: Seq<ValidExtent>,
    p: spec_fn(ValidExtent) -> bool,
    k: Position,
    i: int,
)
    requires
        gc_list(s),
        !(k is PositiveInfinity),
        0 <= i < s.len(),
        p(s[i]),
        s[i].1 >= fwd_key(k),
        forall|j: int| 0 <= j < i ==> ((#[trigger] s[j]).1 < fwd_key(k) || !p(s[j])),
    ensures
        pos_rho(s.filter(p), k) == valid_extent(s[i]),
{
    let f = s.filter(p);
    s.lemma_filter_contains(p, i);
    lemma_filter_gc(s, p);
    let fi = choose|fi: int| 0 <= fi < f.len() && f[fi] == s[i];
    assert forall|j2: int| 0 <= j2 < fi implies (#[trigger] f[j2]).1 < fwd_key(k) by {
        let m = lemma_filter_locate(s, p, j2);
        assert(f[j2].1 < f[fi].1);
        assert(m < i);
    }
    lemma_first_end_geq_at(f, fwd_key(k), fi);
}

/// The `rho` analogue of `lemma_filter_tau_none`.
pub proof fn lemma_filter_rho_none(s: Seq<ValidExtent>, p: spec_fn(ValidExtent) -> bool, k: Position)
    requires
        gc_list(s),
        forall|j: int|
            0 <= j < s.len() && (#[trigger] s[j]).1 >= fwd_key(k) ==> !p(s[j]),
    ensures
        pos_rho(s.filter(p), k) == end_extent(),
{
    if !(k is PositiveInfinity) {
        let f = s.filter(p);
        assert forall|j2: int| 0 <= j2 < f.len() implies (#[trigger] f[j2]).1 < fwd_key(k) by {
            let m = lemma_filter_locate(s, p, j2);
        }
        lemma_first_end_geq_at(f, fwd_key(k), f.len() as int);
    }
}

/// The backward `tau_prime` analogue: the last filtered element ending
/// at or before the query.
pub proof fn lemma_filter_tau_prime_found(
    s: Seq<ValidExtent>,
    p: spec_fn(ValidExtent) -> bool,
    k: Position,
    i: int,
)
    requires
        gc_list(s),
        !(k is NegativeInfinity),
        0 <= i < s.len(),
        p(s[i]),
        s[i].1 <= bwd_key(k),
        forall|j: int| i < j < s.len() ==> ((#[trigger] s[j]).1 > bwd_key(k) || !p(s[j])),
    ensures
        pos_tau_prime(s.filter(p), k) == valid_extent(s[i]),
{
    let f = s.filter(p);
    s.lemma_filter_contains(p, i);
    lemma_filter_gc(s, p);
    let fi = choose|fi: int| 0 <= fi < f.len() && f[fi] == s[i];
    assert forall|j2: int| fi < j2 < f.len() implies (#[trigger] f[j2]).1 > bwd_key(k) by {
        let m = lemma_filter_locate(s, p, j2);
        assert(f[j2].1 > f[fi].1);
        assert(m > i);
    }
    lemma_last_end_leq_at(f, bwd_key(k), fi);
}

/// When every element ending at or before the query misses the filter,
/// `tau_prime` over the filtered list finds nothing.
pub proof fn lemma_filter_tau_prime_none(
    s: Seq<ValidExtent>,
    p: spec_fn(ValidExtent) -> bool,
    k: Position,
)
    requires
        gc_list(s),
        forall|j: int|
            0 <= j < s.len() && (#[trigger] s[j]).1 <= bwd_key(k) ==> !p(s[j]),
    ensures
        pos_tau_prime(s.filter(p), k) == start_extent(),
{
    if !(k is NegativeInfinity) {
        let f = s.filter(p);
        assert forall|j2: int| 0 <= j2 < f.len() implies (#[trigger] f[j2]).1 > bwd_key(k) by {
            let m = lemma_filter_locate(s, p, j2);
        }
        lemma_last_end_leq_at(f, bwd_key(k), -1);
    }
}

/// The backward `rho_prime` analogue, thresholding starts.
pub proof fn lemma_filter_rho_prime_found(
    s: Seq<ValidExtent>,
    p: spec_fn(ValidExtent) -> bool,
    k: Position,
    i: int,
)
    requires
        gc_list(s),
        !(k is NegativeInfinity),
        0 <= i < s.len(),
        p(s[i]),
        s[i].0 <= bwd_key(k),
        forall|j: int| i < j < s.len() ==> ((#[trigger] s[j]).0 > bwd_key(k) || !p(s[j])),
    ensures
        pos_rho_prime(s.filter(p), k) == valid_extent(s[i]),
{
    let f = s.filter(p);
    s.lemma_filter_contains(p, i);
    lemma_filter_gc(s, p);
    let fi = choose|fi: int| 0 <= fi < f.len() && f[fi] == s[i];
    assert forall|j2: int| fi < j2 < f.len() implies (#[trigger] f[j2]).0 > bwd_key(k) by {
        let m = lemma_filter_locate(s, p, j2);
        assert(f[j2].0 > f[fi].0);
        assert(m > i);
    }
    lemma_last_start_leq_at(f, bwd_key(k), fi);
}

/// The `rho_prime` analogue of `lemma_filter_tau_prime_none`.
pub proof fn lemma_filter_rho_prime_none(
    s: Seq<ValidExtent>,
    p: spec_fn(ValidExtent) -> bool,
    k: Position,
)
    requires
        gc_list(s),
        forall|j: int|
            0 <= j < s.len() && (#[trigger] s[j]).0 <= bwd_key(k) ==> !p(s[j]),
    ensures
        pos_rho_prime(s.filter(p), k) == start_extent(),
{
    if !(k is NegativeInfinity) {
        let f = s.filter(p);
        assert forall|j2: int| 0 <= j2 < f.len() implies (#[trigger] f[j2]).0 > bwd_key(k) by {
            let m = lemma_filter_locate(s, p, j2);
        }
        lemma_last_start_leq_at(f, bwd_key(k), -1);
    }
}

/// When two forward thresholds select the same elements — start at or
/// after one, end at or after the other — `tau` at the first and `rho`
/// at the second agree.
pub proof fn lemma_tau_rho_align(s: Seq<ValidExtent>, k1: Position, k2: Position)
    requires
        !(k1 is PositiveInfinity),
        !(k2 is PositiveInfinity),
        forall|j: int|
            0 <= j < s.len() ==> (((#[trigger] s[j]).0 >= fwd_key(k1)) <==> (s[j].1 >= fwd_key(
                k2,
            ))),
    ensures
        pos_tau(s, k1) == pos_rho(s, k2),
{
    crate::gclist::lemma_first_start_geq_char(s, fwd_key(k1));
    let i1 = crate::gclist::first_start_geq(s, fwd_key(k1));
    lemma_first_end_geq_at(s, fwd_key(k2), i1);
}

/// The backward mirror of `lemma_tau_rho_align`: when ending at or
/// before one threshold coincides with starting at or before the
/// other, `tau_prime` and `rho_prime` agree.
pub proof fn lemma_tau_prime_rho_prime_align(s: Seq<ValidExtent>, k1: Position, k2: Position)
    requires
        !(k1 is NegativeInfinity),
        !(k2 is NegativeInfinity),
        forall|j: int|
            0 <= j < s.len() ==> (((#[trigger] s[j]).1 <= bwd_key(k1)) <==> (s[j].0 <= bwd_key(
                k2,
            ))),
    ensures
        pos_tau_prime(s, k1) == pos_rho_prime(s, k2),
{
    crate::gclist::lemma_last_end_leq_char(s, bwd_key(k1));
    let i1 = crate::gclist::last_end_leq(s, bwd_key(k1));
    lemma_last_start_leq_at(s, bwd_key(k2), i1);
}

} // verus!
