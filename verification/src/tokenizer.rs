//! The tokenizer core: maximal alphabetic runs of a text.
//!
//! The indexer turns a document's text into one extent per word, where
//! a word is a maximal run of alphabetic characters.  The run extents
//! are produced in order and form a GC-list, so they can serve directly
//! as a leaf of the algebra.

use vstd::prelude::*;

use crate::extent::ValidExtent;
use crate::gclist::gc_list;

verus! {

/// Whether a character counts as alphabetic; the result depends on the
/// character alone.
pub uninterp spec fn alphabetic(c: char) -> bool;

/// Relies on char::is_alphabetic: whether the character is alphabetic.
#[verifier::external_body]
fn is_alphabetic_char(c: char) -> (r: bool)
    ensures
        r == alphabetic(c),
{
    c.is_alphabetic()
}

/// A maximal run of alphabetic characters: every character inside is
/// alphabetic and the run can extend in neither direction.
pub open spec fn word_run(s: Seq<char>, e: ValidExtent) -> bool {
    &&& e.0 < e.1 <= s.len()
    &&& forall|i: int| e.0 <= i < e.1 ==> alphabetic(#[trigger] s[i])
    &&& (e.0 == 0 || !alphabetic(s[e.0 - 1]))
    &&& (e.1 == s.len() || !alphabetic(s[e.1 as int]))
}

/// Whether some listed extent covers position `i`.
pub open spec fn run_covering(out: Seq<ValidExtent>, i: int) -> bool {
    exists|t: int| 0 <= t < out.len() && (#[trigger] out[t]).0 <= i < out[t].1
}

/// Splits a text into word extents: every returned extent is a maximal
/// alphabetic run, every alphabetic character lies in one, and the runs
/// come in order as a GC-list.
pub fn tokenize(content: &[char]) -> (out: Vec<ValidExtent>)
    ensures
        gc_list(out@),
        forall|t: int| 0 <= t < out@.len() ==> word_run(content@, #[trigger] out@[t]),
        forall|i: int|
            0 <= i < content@.len() && alphabetic(#[trigger] content@[i]) ==> run_covering(
                out@,
                i,
            ),
{
    let n = content.len();
    let mut out: Vec<ValidExtent> = Vec::new();
    let mut i: usize = 0;
    while i < n
        invariant
            n == content@.len(),
            i <= n,
            gc_list(out@),
            forall|t: int| 0 <= t < out@.len() ==> word_run(content@, #[trigger] out@[t]),
            forall|t: int| 0 <= t < out@.len() ==> (#[trigger] out@[t]).1 <= i,
            forall|j: int|
                0 <= j < i && alphabetic(#[trigger] content@[j]) ==> run_covering(out@, j),
            0 < i < n && alphabetic(content@[i as int]) ==> !alphabetic(content@[i - 1]),
        decreases n - i,
    {
        if is_alphabetic_char(content[i]) {
            let start = i;
            i = i + 1;
            // extend the run as far as the alphabetic characters reach
            loop
                invariant
                    n == content@.len(),
                    start < i <= n,
                    forall|j: int|
                        start <= j < i ==> alphabetic(#[trigger] content@[j]),
                ensures
                    start < i <= n,
                    forall|j: int|
                        start <= j < i ==> alphabetic(#[trigger] content@[j]),
                    i == n || !alphabetic(content@[i as int]),
                decreases n - i,
            {
                if i >= n {
                    break;
                }
                if !is_alphabetic_char(content[i]) {
                    break;
                }
                i = i + 1;
            }
            let ghost old_out = out@;
            let e = (start as u64, i as u64);
            out.push(e);
            proof {
                assert(out@ == old_out.push(e));
                assert(word_run(content@, e)) by {
                    if start > 0 {
                        assert(!alphabetic(content@[start - 1]));
                    }
                }
                assert forall|t: int| 0 <= t < out@.len() implies word_run(
                    content@,
                    #[trigger] out@[t],
                ) by {
                    if t < old_out.len() {
                        assert(out@[t] == old_out[t]);
                    } else {
                        assert(out@[t] == e);
                    }
                }
                assert forall|t: int| 0 <= t < out@.len() implies (#[trigger] out@[t]).1 <= i by {
                    if t < old_out.len() {
                        assert(out@[t] == old_out[t]);
                        assert(old_out[t].1 <= start);
                    } else {
                        assert(out@[t] == e);
                    }
                }
                assert forall|t1: int, t2: int|
                    #![trigger out@[t1], out@[t2]]
                    0 <= t1 < t2 < out@.len() implies out@[t1].0 < out@[t2].0 && out@[t1].1
                    < out@[t2].1 by {
                    if t2 < old_out.len() {
                        assert(out@[t1] == old_out[t1] && out@[t2] == old_out[t2]);
                    } else {
                        assert(out@[t2] == e && out@[t1] == old_out[t1]);
                        assert(old_out[t1].1 <= start);
                        assert(old_out[t1].0 < old_out[t1].1);
                    }
                }
                assert forall|j: int|
                    0 <= j < i && alphabetic(#[trigger] content@[j]) implies run_covering(
                    out@,
                    j,
                ) by {
                    if j < start {
                        assert(run_covering(old_out, j));
                        let t = choose|t: int|
                            0 <= t < old_out.len() && (#[trigger] old_out[t]).0 <= j
                                < old_out[t].1;
                        assert(out@[t] == old_out[t]);
                        assert(0 <= t < out@.len() && out@[t].0 <= j < out@[t].1);
                    } else {
                        let t = out@.len() - 1;
                        assert(out@[t] == e);
                        assert(out@[t].0 <= j < out@[t].1);
                    }
                }
            }
        } else {
            i = i + 1;
        }
    }
    out
}

} // verus!
