//! The mathematical model of extent lists and of the four access
//! primitives.
//!
//! A *GC-list* is a sequence of valid extents strictly monotonic in both
//! coordinates.  Every operator of the algebra is specified against a
//! GC-list, its materialized result: the forward primitives return the
//! first listed extent whose start (`pos_tau`) or end (`pos_rho`) lies
//! at or after the queried position, and the backward primitives return
//! the last listed extent whose end (`pos_tau_prime`) or start
//! (`pos_rho_prime`) lies at or before it.  When no such extent exists,
//! the directional sentinel escapes instead.

use vstd::prelude::*;

use crate::extent::{end_extent, start_extent, valid_extent, Extent, ValidExtent};
use crate::position::Position;

verus! {

/// A sequence of valid extents, strictly increasing in both start and
/// end coordinates: the canonical well-formed shape of any operator's
/// output.
pub open spec fn gc_list(s: Seq<ValidExtent>) -> bool {
    &&& forall|i: int| 0 <= i < s.len() ==> (#[trigger] s[i]).0 <= s[i].1
    &&& forall|i: int, j: int|
        #![trigger s[i], s[j]]
        0 <= i < j < s.len() ==> s[i].0 < s[j].0 && s[i].1 < s[j].1
}

/// The number a forward query position stands for: `-inf` asks from the
/// very beginning.
pub open spec fn fwd_key(k: Position) -> u64 {
    match k {
        Position::NegativeInfinity => 0,
        Position::Valid(v) => v,
        Position::PositiveInfinity => u64::MAX,
    }
}

/// The number a backward query position stands for: `+inf` asks from
/// the very end.
pub open spec fn bwd_key(k: Position) -> u64 {
    match k {
        Position::NegativeInfinity => 0,
        Position::Valid(v) => v,
        Position::PositiveInfinity => u64::MAX,
    }
}

pub open spec fn first_start_geq_from(s: Seq<ValidExtent>, kv: u64, lo: int) -> int
    decreases s.len() - lo,
{
    if lo < 0 || lo >= s.len() {
        s.len() as int
    } else if s[lo].0 >= kv {
        lo
    } else {
        first_start_geq_from(s, kv, lo + 1)
    }
}

/// The index of the first extent whose start is at or after `kv`, or
/// the length when none is.
pub open spec fn first_start_geq(s: Seq<ValidExtent>, kv: u64) -> int {
    first_start_geq_from(s, kv, 0)
}

pub open spec fn first_end_geq_from(s: Seq<ValidExtent>, kv: u64, lo: int) -> int
    decreases s.len() - lo,
{
    if lo < 0 || lo >= s.len() {
        s.len() as int
    } else if s[lo].1 >= kv {
        lo
    } else {
        first_end_geq_from(s, kv, lo + 1)
    }
}

/// The index of the first extent whose end is at or after `kv`, or the
/// length when none is.
pub open spec fn first_end_geq(s: Seq<ValidExtent>, kv: u64) -> int {
    first_end_geq_from(s, kv, 0)
}

pub open spec fn last_end_leq_from(s: Seq<ValidExtent>, kv: u64, hi: int) -> int
    decreases hi + 1,
{
    if hi < 0 || hi >= s.len() {
        -1
    } else if s[hi].1 <= kv {
        hi
    } else {
        last_end_leq_from(s, kv, hi - 1)
    }
}

/// The index of the last extent whose end is at or before `kv`, or `-1`
/// when none is.
pub open spec fn last_end_leq(s: Seq<ValidExtent>, kv: u64) -> int {
    last_end_leq_from(s, kv, s.len() - 1)
}

pub open spec fn last_start_leq_from(s: Seq<ValidExtent>, kv: u64, hi: int) -> int
    decreases hi + 1,
{
    if hi < 0 || hi >= s.len() {
        -1
    } else if s[hi].0 <= kv {
        hi
    } else {
        last_start_leq_from(s, kv, hi - 1)
    }
}

/// The index of the last extent whose start is at or before `kv`, or
/// `-1` when none is.
pub open spec fn last_start_leq(s: Seq<ValidExtent>, kv: u64) -> int {
    last_start_leq_from(s, kv, s.len() - 1)
}

/// The first extent of `s` whose start is at or after `k`, or the end
/// sentinel.
pub open spec fn pos_tau(s: Seq<ValidExtent>, k: Position) -> Extent {
    if k is PositiveInfinity {
        end_extent()
    } else {
        let i = first_start_geq(s, fwd_key(k));
        if i < s.len() {
            valid_extent(s[i])
        } else {
            end_extent()
        }
    }
}

/// The first extent of `s` whose end is at or after `k`, or the end
/// sentinel.
pub open spec fn pos_rho(s: Seq<ValidExtent>, k: Position) -> Extent {
    if k is PositiveInfinity {
        end_extent()
    } else {
        let i = first_end_geq(s, fwd_key(k));
        if i < s.len() {
            valid_extent(s[i])
        } else {
            end_extent()
        }
    }
}

/// The last extent of `s` whose end is at or before `k`, or the start
/// sentinel.
pub open spec fn pos_tau_prime(s: Seq<ValidExtent>, k: Position) -> Extent {
    if k is NegativeInfinity {
        start_extent()
    } else {
        let i = last_end_leq(s, bwd_key(k));
        if i >= 0 {
            valid_extent(s[i])
        } else {
            start_extent()
        }
    }
}

/// The last extent of `s` whose start is at or before `k`, or the start
/// sentinel.
pub open spec fn pos_rho_prime(s: Seq<ValidExtent>, k: Position) -> Extent {
    if k is NegativeInfinity {
        start_extent()
    } else {
        let i = last_start_leq(s, bwd_key(k));
        if i >= 0 {
            valid_extent(s[i])
        } else {
            start_extent()
        }
    }
}

proof fn lemma_first_start_geq_from_char(s: Seq<ValidExtent>, kv: u64, lo: int)
    requires
        0 <= lo <= s.len(),
    ensures
        lo <= first_start_geq_from(s, kv, lo) <= s.len(),
        forall|j: int| lo <= j < first_start_geq_from(s, kv, lo) ==> (#[trigger] s[j]).0 < kv,
        first_start_geq_from(s, kv, lo) < s.len() ==> s[first_start_geq_from(s, kv, lo)].0 >= kv,
    decreases s.len() - lo,
{
    if lo < s.len() && s[lo].0 < kv {
        lemma_first_start_geq_from_char(s, kv, lo + 1);
    }
}

/// Where the first start at or after `kv` sits: everything before the
/// found index starts earlier, and the found index (when in range)
/// starts at or after `kv`.
pub proof fn lemma_first_start_geq_char(s: Seq<ValidExtent>, kv: u64)
    ensures
        0 <= first_start_geq(s, kv) <= s.len(),
        forall|j: int| 0 <= j < first_start_geq(s, kv) ==> (#[trigger] s[j]).0 < kv,
        first_start_geq(s, kv) < s.len() ==> s[first_start_geq(s, kv)].0 >= kv,
{
    lemma_first_start_geq_from_char(s, kv, 0);
}

proof fn lemma_first_start_geq_from_at(s: Seq<ValidExtent>, kv: u64, lo: int, i: int)
    requires
        0 <= lo <= i <= s.len(),
        forall|j: int| lo <= j < i ==> (#[trigger] s[j]).0 < kv,
        i < s.len() ==> s[i].0 >= kv,
    ensures
        first_start_geq_from(s, kv, lo) == i,
    decreases s.len() - lo,
{
    if lo < i {
        lemma_first_start_geq_from_at(s, kv, lo + 1, i);
    }
}

/// An index below which every start is earlier than `kv`, and which
/// itself starts at or after `kv`, is the first such index.
pub proof fn lemma_first_start_geq_at(s: Seq<ValidExtent>, kv: u64, i: int)
    requires
        0 <= i <= s.len(),
        forall|j: int| 0 <= j < i ==> (#[trigger] s[j]).0 < kv,
        i < s.len() ==> s[i].0 >= kv,
    ensures
        first_start_geq(s, kv) == i,
{
    lemma_first_start_geq_from_at(s, kv, 0, i);
}

proof fn lemma_first_end_geq_from_char(s: Seq<ValidExtent>, kv: u64, lo: int)
    requires
        0 <= lo <= s.len(),
    ensures
        lo <= first_end_geq_from(s, kv, lo) <= s.len(),
        forall|j: int| lo <= j < first_end_geq_from(s, kv, lo) ==> (#[trigger] s[j]).1 < kv,
        first_end_geq_from(s, kv, lo) < s.len() ==> s[first_end_geq_from(s, kv, lo)].1 >= kv,
    decreases s.len() - lo,
{
    if lo < s.len() && s[lo].1 < kv {
        lemma_first_end_geq_from_char(s, kv, lo + 1);
    }
}

/// Where the first end at or after `kv` sits.
pub proof fn lemma_first_end_geq_char(s: Seq<ValidExtent>, kv: u64)
    ensures
        0 <= first_end_geq(s, kv) <= s.len(),
        forall|j: int| 0 <= j < first_end_geq(s, kv) ==> (#[trigger] s[j]).1 < kv,
        first_end_geq(s, kv) < s.len() ==> s[first_end_geq(s, kv)].1 >= kv,
{
    lemma_first_end_geq_from_char(s, kv, 0);
}

proof fn lemma_first_end_geq_from_at(s: Seq<ValidExtent>, kv: u64, lo: int, i: int)
    requires
        0 <= lo <= i <= s.len(),
        forall|j: int| lo <= j < i ==> (#[trigger] s[j]).1 < kv,
        i < s.len() ==> s[i].1 >= kv,
    ensures
        first_end_geq_from(s, kv, lo) == i,
    decreases s.len() - lo,
{
    if lo < i {
        lemma_first_end_geq_from_at(s, kv, lo + 1, i);
    }
}

/// An index below which every end is earlier than `kv`, and which
/// itself ends at or after `kv`, is the first such index.
pub proof fn lemma_first_end_geq_at(s: Seq<ValidExtent>, kv: u64, i: int)
    requires
        0 <= i <= s.len(),
        forall|j: int| 0 <= j < i ==> (#[trigger] s[j]).1 < kv,
        i < s.len() ==> s[i].1 >= kv,
    ensures
        first_end_geq(s, kv) == i,
{
    lemma_first_end_geq_from_at(s, kv, 0, i);
}

proof fn lemma_last_end_leq_from_char(s: Seq<ValidExtent>, kv: u64, hi: int)
    requires
        -1 <= hi < s.len(),
    ensures
        -1 <= last_end_leq_from(s, kv, hi) <= hi,
        forall|j: int| last_end_leq_from(s, kv, hi) < j <= hi ==> (#[trigger] s[j]).1 > kv,
        last_end_leq_from(s, kv, hi) >= 0 ==> s[last_end_leq_from(s, kv, hi)].1 <= kv,
    decreases hi + 1,
{
    if hi >= 0 && s[hi].1 > kv {
        lemma_last_end_leq_from_char(s, kv, hi - 1);
    }
}

/// Where the last end at or before `kv` sits: everything after the
/// found index ends later, and the found index (when in range) ends at
/// or before `kv`.
pub proof fn lemma_last_end_leq_char(s: Seq<ValidExtent>, kv: u64)
    ensures
        -1 <= last_end_leq(s, kv) < s.len(),
        forall|j: int| last_end_leq(s, kv) < j < s.len() ==> (#[trigger] s[j]).1 > kv,
        last_end_leq(s, kv) >= 0 ==> s[last_end_leq(s, kv)].1 <= kv,
{
    lemma_last_end_leq_from_char(s, kv, s.len() - 1);
}

proof fn lemma_last_end_leq_from_at(s: Seq<ValidExtent>, kv: u64, hi: int, i: int)
    requires
        -1 <= i <= hi < s.len(),
        forall|j: int| i < j <= hi ==> (#[trigger] s[j]).1 > kv,
        i >= 0 ==> s[i].1 <= kv,
    ensures
        last_end_leq_from(s, kv, hi) == i,
    decreases hi + 1,
{
    if i < hi {
        lemma_last_end_leq_from_at(s, kv, hi - 1, i);
    }
}

/// An index above which every end is later than `kv`, and which itself
/// ends at or before `kv`, is the last such index.
pub proof fn lemma_last_end_leq_at(s: Seq<ValidExtent>, kv: u64, i: int)
    requires
        -1 <= i < s.len(),
        forall|j: int| i < j < s.len() ==> (#[trigger] s[j]).1 > kv,
        i >= 0 ==> s[i].1 <= kv,
    ensures
        last_end_leq(s, kv) == i,
{
    lemma_last_end_leq_from_at(s, kv, s.len() - 1, i);
}

proof fn lemma_last_start_leq_from_char(s: Seq<ValidExtent>, kv: u64, hi: int)
    requires
        -1 <= hi < s.len(),
    ensures
        -1 <= last_start_leq_from(s, kv, hi) <= hi,
        forall|j: int| last_start_leq_from(s, kv, hi) < j <= hi ==> (#[trigger] s[j]).0 > kv,
        last_start_leq_from(s, kv, hi) >= 0 ==> s[last_start_leq_from(s, kv, hi)].0 <= kv,
    decreases hi + 1,
{
    if hi >= 0 && s[hi].0 > kv {
        lemma_last_start_leq_from_char(s, kv, hi - 1);
    }
}

/// Where the last start at or before `kv` sits.
pub proof fn lemma_last_start_leq_char(s: Seq<ValidExtent>, kv: u64)
    ensures
        -1 <= last_start_leq(s, kv) < s.len(),
        forall|j: int| last_start_leq(s, kv) < j < s.len() ==> (#[trigger] s[j]).0 > kv,
        last_start_leq(s, kv) >= 0 ==> s[last_start_leq(s, kv)].0 <= kv,
{
    lemma_last_start_leq_from_char(s, kv, s.len() - 1);
}

proof fn lemma_last_start_leq_from_at(s: Seq<ValidExtent>, kv: u64, hi: int, i: int)
    requires
        -1 <= i <= hi < s.len(),
        forall|j: int| i < j <= hi ==> (#[trigger] s[j]).0 > kv,
        i >= 0 ==> s[i].0 <= kv,
    ensures
        last_start_leq_from(s, kv, hi) == i,
    decreases hi + 1,
{
    if i < hi {
        lemma_last_start_leq_from_at(s, kv, hi - 1, i);
    }
}

/// An index above which every start is later than `kv`, and which
/// itself starts at or before `kv`, is the last such index.
pub proof fn lemma_last_start_leq_at(s: Seq<ValidExtent>, kv: u64, i: int)
    requires
        -1 <= i < s.len(),
        forall|j: int| i < j < s.len() ==> (#[trigger] s[j]).0 > kv,
        i >= 0 ==> s[i].0 <= kv,
    ensures
        last_start_leq(s, kv) == i,
{
    lemma_last_start_leq_from_at(s, kv, s.len() - 1, i);
}

/// On a GC-list, `rho` can be answered by stepping back one position,
/// asking `tau_prime`, and re-entering `tau` just past the start found
/// there: the extent after the last one ending strictly before `k` is
/// the first one ending at or after `k`.
pub proof fn lemma_rho_via_tau_prime_tau(s: Seq<ValidExtent>, k: Position)
    requires
        gc_list(s),
        !(k is PositiveInfinity),
    ensures
        pos_rho(s, k) == pos_tau(
            s,
            pos_tau_prime(s, k.spec_decrement()).0.spec_increment(),
        ),
{
    let kd = k.spec_decrement();
    if kd is NegativeInfinity {
        // nothing ends before the least position: both scans start at
        // the very beginning
        lemma_first_start_geq_at(s, 0, 0);
        lemma_first_end_geq_at(s, fwd_key(k), 0);
    } else {
        let x = fwd_key(k);
        let i1 = last_end_leq(s, bwd_key(kd));
        lemma_last_end_leq_char(s, bwd_key(kd));
        if i1 < 0 {
            lemma_first_start_geq_at(s, 0, 0);
            lemma_first_end_geq_at(s, x, 0);
        } else {
            let p = s[i1].0;
            if p == u64::MAX {
                if i1 < s.len() - 1 {
                    assert(s[i1 + 1].0 > u64::MAX);
                }
                assert(i1 == s.len() - 1);
                assert forall|j: int| 0 <= j < s.len() implies (#[trigger] s[j]).1 < x by {
                    assert(s[j].1 <= s[i1].1);
                }
                lemma_first_end_geq_at(s, x, s.len() as int);
            } else {
                assert forall|j: int| 0 <= j <= i1 implies (#[trigger] s[j]).0 < p + 1 by {
                    assert(s[j].0 <= s[i1].0);
                }
                lemma_first_start_geq_at(s, (p + 1) as u64, i1 + 1);
                assert forall|j: int| 0 <= j <= i1 implies (#[trigger] s[j]).1 < x by {
                    assert(s[j].1 <= s[i1].1);
                }
                lemma_first_end_geq_at(s, x, i1 + 1);
            }
        }
    }
}

/// The backward mirror: `rho_prime` answered by stepping forward one
/// position, asking `tau`, and re-entering `tau_prime` just before the
/// end found there.
pub proof fn lemma_rho_prime_via_tau_tau_prime(s: Seq<ValidExtent>, k: Position)
    requires
        gc_list(s),
        !(k is NegativeInfinity),
    ensures
        pos_rho_prime(s, k) == pos_tau_prime(
            s,
            pos_tau(s, k.spec_increment()).1.spec_decrement(),
        ),
{
    let ki = k.spec_increment();
    if ki is PositiveInfinity {
        // nothing starts past the greatest position: both scans start
        // at the very end
        lemma_last_end_leq_at(s, u64::MAX, s.len() - 1);
        lemma_last_start_leq_at(s, bwd_key(k), s.len() - 1);
    } else {
        let x = bwd_key(k);
        let i1 = first_start_geq(s, fwd_key(ki));
        lemma_first_start_geq_char(s, fwd_key(ki));
        if i1 >= s.len() {
            lemma_last_end_leq_at(s, u64::MAX, s.len() - 1);
            lemma_last_start_leq_at(s, x, s.len() - 1);
        } else {
            let q = s[i1].1;
            if q == 0 {
                if i1 > 0 {
                    assert(s[i1 - 1].1 < s[i1].1);
                }
                assert(i1 == 0);
                assert forall|j: int| 0 <= j < s.len() implies (#[trigger] s[j]).0 > x by {
                    assert(s[j].0 >= s[i1].0);
                }
                lemma_last_start_leq_at(s, x, -1);
            } else {
                assert forall|j: int| i1 <= j < s.len() implies (#[trigger] s[j]).1 > q - 1 by {
                    assert(s[j].1 >= s[i1].1);
                }
                lemma_last_end_leq_at(s, (q - 1) as u64, i1 - 1);
                assert forall|j: int| i1 <= j < s.len() implies (#[trigger] s[j]).0 > x by {
                    assert(s[j].0 >= s[i1].0);
                }
                lemma_last_start_leq_at(s, x, i1 - 1);
            }
        }
    }
}

/// Sentinel short-circuit: a forward query from `+inf` finds nothing
/// ahead, and a backward query from `-inf` finds nothing behind,
/// whatever the list holds.
pub proof fn lemma_sentinel_short_circuit(s: Seq<ValidExtent>)
    ensures
        pos_tau(s, Position::PositiveInfinity) == end_extent(),
        pos_rho(s, Position::PositiveInfinity) == end_extent(),
        pos_tau_prime(s, Position::NegativeInfinity) == start_extent(),
        pos_rho_prime(s, Position::NegativeInfinity) == start_extent(),
{
}

} // verus!
