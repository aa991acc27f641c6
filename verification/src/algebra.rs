//! The algebra contract: four access primitives and four streaming
//! iterators.
//!
//! Every operator — leaf or composed — carries a ghost list `extents`,
//! the GC-list it denotes, and each primitive is required to return
//! exactly what a search over that list would return (`pos_tau` and
//! friends).  Because the contract speaks only of the materialized
//! list, any answer is independent of how the query position was
//! reached, and operators compose to arbitrary depth.
//!
//! The iterators drive a primitive across the whole list.  Their
//! `into_vec` contracts state the global laws: the two forward
//! iterators both materialize exactly the view, and the two backward
//! iterators both materialize exactly the reversed view.

use vstd::prelude::*;

use crate::extent::{end_extent, start_extent, valid_extent, Extent, ValidExtent};
use crate::gclist::{
    bwd_key, first_end_geq, first_start_geq, fwd_key, gc_list, last_end_leq, last_start_leq,
    lemma_first_end_geq_at, lemma_first_end_geq_char, lemma_first_start_geq_at,
    lemma_first_start_geq_char, lemma_last_end_leq_at, lemma_last_end_leq_char,
    lemma_last_start_leq_at, lemma_last_start_leq_char, pos_rho, pos_rho_prime, pos_tau,
    pos_tau_prime,
};
use crate::position::Position;

verus! {

/// The uniform access interface of the extent algebra.
///
/// `extents` is the operator's materialized result list and `inv` its
/// well-formedness; `lemma_extents_gc` obliges every implementor to show
/// that the list it denotes is a GC-list.  The four primitives answer
/// positional queries against that list without materializing it.
pub trait Algebra {
    /// The GC-list of extents this operator denotes.
    spec fn extents(&self) -> Seq<ValidExtent>;

    /// Well-formedness of this operator (and of its children).
    spec fn inv(&self) -> bool;

    /// Every well-formed operator denotes a GC-list.
    proof fn lemma_extents_gc(&self)
        requires
            self.inv(),
        ensures
            gc_list(self.extents()),
    ;

    /// The first extent whose start is at or after `k`.
    fn tau(&self, k: Position) -> (r: Extent)
        requires
            self.inv(),
        ensures
            r == pos_tau(self.extents(), k),
    ;

    /// The last extent whose end is at or before `k`.
    fn tau_prime(&self, k: Position) -> (r: Extent)
        requires
            self.inv(),
        ensures
            r == pos_tau_prime(self.extents(), k),
    ;

    /// The first extent whose end is at or after `k`.
    fn rho(&self, k: Position) -> (r: Extent)
        requires
            self.inv(),
        ensures
            r == pos_rho(self.extents(), k),
    ;

    /// The last extent whose start is at or before `k`.
    fn rho_prime(&self, k: Position) -> (r: Extent)
        requires
            self.inv(),
        ensures
            r == pos_rho_prime(self.extents(), k),
    ;

    /// All extents in the forward direction, driven by `tau`.
    fn iter_tau(self) -> (it: IterTau<Self>) where Self: Sized
        requires
            self.inv(),
        ensures
            it.list == self,
            it.k == Position::NegativeInfinity,
    {
        IterTau { list: self, k: Position::NegativeInfinity }
    }

    /// All extents in the forward direction, driven by `rho`.
    fn iter_rho(self) -> (it: IterRho<Self>) where Self: Sized
        requires
            self.inv(),
        ensures
            it.list == self,
            it.k == Position::NegativeInfinity,
    {
        IterRho { list: self, k: Position::NegativeInfinity }
    }

    /// All extents in the backward direction, driven by `tau_prime`.
    fn iter_tau_prime(self) -> (it: IterTauPrime<Self>) where Self: Sized
        requires
            self.inv(),
        ensures
            it.list == self,
            it.k == Position::PositiveInfinity,
    {
        IterTauPrime { list: self, k: Position::PositiveInfinity }
    }

    /// All extents in the backward direction, driven by `rho_prime`.
    fn iter_rho_prime(self) -> (it: IterRhoPrime<Self>) where Self: Sized
        requires
            self.inv(),
        ensures
            it.list == self,
            it.k == Position::PositiveInfinity,
    {
        IterRhoPrime { list: self, k: Position::PositiveInfinity }
    }
}

impl<A: Algebra + ?Sized> Algebra for &A {
    open spec fn extents(&self) -> Seq<ValidExtent> {
        (**self).extents()
    }

    open spec fn inv(&self) -> bool {
        (**self).inv()
    }

    proof fn lemma_extents_gc(&self) {
        (**self).lemma_extents_gc();
    }

    fn tau(&self, k: Position) -> (r: Extent) {
        (**self).tau(k)
    }

    fn tau_prime(&self, k: Position) -> (r: Extent) {
        (**self).tau_prime(k)
    }

    fn rho(&self, k: Position) -> (r: Extent) {
        (**self).rho(k)
    }

    fn rho_prime(&self, k: Position) -> (r: Extent) {
        (**self).rho_prime(k)
    }
}

impl<A: Algebra + ?Sized> Algebra for Box<A> {
    open spec fn extents(&self) -> Seq<ValidExtent> {
        (**self).extents()
    }

    open spec fn inv(&self) -> bool {
        (**self).inv()
    }

    proof fn lemma_extents_gc(&self) {
        (**self).lemma_extents_gc();
    }

    fn tau(&self, k: Position) -> (r: Extent) {
        (**self).tau(k)
    }

    fn tau_prime(&self, k: Position) -> (r: Extent) {
        (**self).tau_prime(k)
    }

    fn rho(&self, k: Position) -> (r: Extent) {
        (**self).rho(k)
    }

    fn rho_prime(&self, k: Position) -> (r: Extent) {
        (**self).rho_prime(k)
    }
}

/// Finds no extents: its view is the empty list.
#[derive(Debug, Copy, Clone)]
pub struct Empty;

impl Algebra for Empty {
    open spec fn extents(&self) -> Seq<ValidExtent> {
        Seq::empty()
    }

    open spec fn inv(&self) -> bool {
        true
    }

    proof fn lemma_extents_gc(&self) {
    }

    fn tau(&self, _k: Position) -> (r: Extent) {
        Extent(Position::PositiveInfinity, Position::PositiveInfinity)
    }

    fn tau_prime(&self, _k: Position) -> (r: Extent) {
        Extent(Position::NegativeInfinity, Position::NegativeInfinity)
    }

    fn rho(&self, _k: Position) -> (r: Extent) {
        Extent(Position::PositiveInfinity, Position::PositiveInfinity)
    }

    fn rho_prime(&self, _k: Position) -> (r: Extent) {
        Extent(Position::NegativeInfinity, Position::NegativeInfinity)
    }
}

/// The part of the view a forward `tau` iteration with cursor `k` has
/// yet to yield.
pub open spec fn tau_remaining(v: Seq<ValidExtent>, k: Position) -> Seq<ValidExtent> {
    if k is PositiveInfinity {
        Seq::empty()
    } else {
        v.skip(first_start_geq(v, fwd_key(k)))
    }
}

/// The part of the view a forward `rho` iteration with cursor `k` has
/// yet to yield.
pub open spec fn rho_remaining(v: Seq<ValidExtent>, k: Position) -> Seq<ValidExtent> {
    if k is PositiveInfinity {
        Seq::empty()
    } else {
        v.skip(first_end_geq(v, fwd_key(k)))
    }
}

/// The part of the view a backward `tau_prime` iteration with cursor
/// `k` has yet to yield, in yield order (reversed).
pub open spec fn tau_prime_remaining(v: Seq<ValidExtent>, k: Position) -> Seq<ValidExtent> {
    if k is NegativeInfinity {
        Seq::empty()
    } else {
        v.take(last_end_leq(v, bwd_key(k)) + 1).reverse()
    }
}

/// The part of the view a backward `rho_prime` iteration with cursor
/// `k` has yet to yield, in yield order (reversed).
pub open spec fn rho_prime_remaining(v: Seq<ValidExtent>, k: Position) -> Seq<ValidExtent> {
    if k is NegativeInfinity {
        Seq::empty()
    } else {
        v.take(last_start_leq(v, bwd_key(k)) + 1).reverse()
    }
}

/// The iteration laws.  A fresh forward iteration, whether driven by
/// `tau` or by `rho`, materializes exactly the operator's list; a fresh
/// backward iteration, whether driven by `tau_prime` or by `rho_prime`,
/// materializes exactly its reverse.  So the two forward iterators
/// agree, the two backward iterators agree, and backward is forward
/// reversed.
pub proof fn lemma_iteration_laws(v: Seq<ValidExtent>)
    ensures
        tau_remaining(v, Position::NegativeInfinity) == v,
        rho_remaining(v, Position::NegativeInfinity) == v,
        tau_prime_remaining(v, Position::PositiveInfinity) == v.reverse(),
        rho_prime_remaining(v, Position::PositiveInfinity) == v.reverse(),
{
    lemma_first_start_geq_at(v, 0, 0);
    lemma_first_end_geq_at(v, 0, 0);
    assert(v.skip(0) =~= v);
    lemma_last_end_leq_at(v, u64::MAX, v.len() - 1);
    lemma_last_start_leq_at(v, u64::MAX, v.len() - 1);
    assert(v.take(v.len() as int) =~= v);
}

/// Iterates over the extent list in the forward direction using the
/// tau primitive.
#[derive(Debug, Copy, Clone)]
pub struct IterTau<T> {
    pub list: T,
    pub k: Position,
}

impl<T: Algebra> IterTau<T> {
    /// The next extent of the stream: `tau` at the cursor, with the
    /// cursor advanced past the returned start.
    pub fn next(&mut self) -> (r: Option<ValidExtent>)
        requires
            old(self).list.inv(),
        ensures
            final(self).list == old(self).list,
            match r {
                Some(e) => {
                    &&& pos_tau(old(self).list.extents(), old(self).k) == valid_extent(e)
                    &&& final(self).k == Position::Valid(e.0).spec_increment()
                },
                None => {
                    &&& pos_tau(old(self).list.extents(), old(self).k) == end_extent()
                    &&& final(self).k == old(self).k
                },
            },
    {
        let Extent(p, q) = self.list.tau(self.k);
        if let Position::Valid(_) = p {
            proof {
                self.list.lemma_extents_gc();
            }
            self.k = p.increment();
            let e = Extent(p, q).unwrap();
            Some(e)
        } else {
            assert(Extent(p, q) == end_extent());
            None
        }
    }

    /// Materializes the rest of the stream.  Started fresh, this
    /// yields exactly the operator's view: `tau` and `rho` iteration
    /// produce identical sequences.
    pub fn into_vec(self) -> (out: Vec<ValidExtent>)
        requires
            self.list.inv(),
        ensures
            out@ == tau_remaining(self.list.extents(), self.k),
            self.k == Position::NegativeInfinity ==> out@ == self.list.extents(),
    {
        let ghost v = self.list.extents();
        proof {
            self.list.lemma_extents_gc();
        }
        let mut it = self;
        let mut out: Vec<ValidExtent> = Vec::new();
        loop
            invariant
                it.list == self.list,
                it.list.inv(),
                v == it.list.extents(),
                gc_list(v),
                out@ + tau_remaining(v, it.k) == tau_remaining(v, self.k),
            ensures
                out@ == tau_remaining(v, self.k),
            decreases tau_remaining(v, it.k).len(),
        {
            let ghost k0 = it.k;
            match it.next() {
                Some(e) => {
                    proof {
                        lemma_tau_step(v, k0, e);
                    }
                    out.push(e);
                },
                None => {
                    proof {
                        lemma_tau_done(v, k0);
                        assert(out@ + tau_remaining(v, k0) =~= out@);
                    }
                    break;
                },
            }
        }
        proof {
            if self.k is NegativeInfinity {
                lemma_first_start_geq_char(v, 0);
                assert(out@ =~= v);
            }
        }
        out
    }
}

proof fn lemma_tau_step(v: Seq<ValidExtent>, k: Position, e: ValidExtent)
    requires
        gc_list(v),
        pos_tau(v, k) == valid_extent(e),
    ensures
        tau_remaining(v, k) == seq![e] + tau_remaining(v, Position::Valid(e.0).spec_increment()),
        tau_remaining(v, Position::Valid(e.0).spec_increment()).len() < tau_remaining(v, k).len(),
{
    let i = first_start_geq(v, fwd_key(k));
    lemma_first_start_geq_char(v, fwd_key(k));
    assert(0 <= i < v.len() && v[i] == e);
    if e.0 == u64::MAX {
        // nothing can start beyond the greatest natural, so e is last
        if i < v.len() - 1 {
            assert(v[i + 1].0 > u64::MAX);
        }
        assert(i == v.len() - 1);
        assert(tau_remaining(v, k) =~= seq![e]);
        assert(tau_remaining(v, Position::Valid(e.0).spec_increment()) =~= Seq::empty());
    } else {
        let kv2 = (e.0 + 1) as u64;
        assert(forall|j: int| 0 <= j <= i ==> (#[trigger] v[j]).0 < kv2);
        lemma_first_start_geq_at(v, kv2, i + 1);
        assert(tau_remaining(v, k) =~= seq![e] + tau_remaining(
            v,
            Position::Valid(e.0).spec_increment(),
        ));
    }
}

proof fn lemma_tau_done(v: Seq<ValidExtent>, k: Position)
    requires
        pos_tau(v, k) == end_extent(),
    ensures
        tau_remaining(v, k) == Seq::<ValidExtent>::empty(),
{
    if !(k is PositiveInfinity) {
        lemma_first_start_geq_char(v, fwd_key(k));
        assert(tau_remaining(v, k) =~= Seq::<ValidExtent>::empty());
    }
}

/// Iterates over the extent list in the forward direction using the
/// rho primitive.
#[derive(Debug, Copy, Clone)]
pub struct IterRho<T> {
    pub list: T,
    pub k: Position,
}

impl<T: Algebra> IterRho<T> {
    /// The next extent of the stream: `rho` at the cursor, with the
    /// cursor advanced past the returned end.
    pub fn next(&mut self) -> (r: Option<ValidExtent>)
        requires
            old(self).list.inv(),
        ensures
            final(self).list == old(self).list,
            match r {
                Some(e) => {
                    &&& pos_rho(old(self).list.extents(), old(self).k) == valid_extent(e)
                    &&& final(self).k == Position::Valid(e.1).spec_increment()
                },
                None => {
                    &&& pos_rho(old(self).list.extents(), old(self).k) == end_extent()
                    &&& final(self).k == old(self).k
                },
            },
    {
        let Extent(p, q) = self.list.rho(self.k);
        if let Position::Valid(_) = q {
            proof {
                self.list.lemma_extents_gc();
            }
            self.k = q.increment();
            let e = Extent(p, q).unwrap();
            Some(e)
        } else {
            assert(Extent(p, q) == end_extent());
            None
        }
    }

    /// Materializes the rest of the stream.  Started fresh, this
    /// yields exactly the operator's view, just as `tau` iteration
    /// does.
    pub fn into_vec(self) -> (out: Vec<ValidExtent>)
        requires
            self.list.inv(),
        ensures
            out@ == rho_remaining(self.list.extents(), self.k),
            self.k == Position::NegativeInfinity ==> out@ == self.list.extents(),
    {
        let ghost v = self.list.extents();
        proof {
            self.list.lemma_extents_gc();
        }
        let mut it = self;
        let mut out: Vec<ValidExtent> = Vec::new();
        loop
            invariant
                it.list == self.list,
                it.list.inv(),
                v == it.list.extents(),
                gc_list(v),
                out@ + rho_remaining(v, it.k) == rho_remaining(v, self.k),
            ensures
                out@ == rho_remaining(v, self.k),
            decreases rho_remaining(v, it.k).len(),
        {
            let ghost k0 = it.k;
            match it.next() {
                Some(e) => {
                    proof {
                        lemma_rho_step(v, k0, e);
                    }
                    out.push(e);
                },
                None => {
                    proof {
                        lemma_rho_done(v, k0);
                        assert(out@ + rho_remaining(v, k0) =~= out@);
                    }
                    break;
                },
            }
        }
        proof {
            if self.k is NegativeInfinity {
                lemma_first_end_geq_char(v, 0);
                assert(out@ =~= v);
            }
        }
        out
    }
}

proof fn lemma_rho_step(v: Seq<ValidExtent>, k: Position, e: ValidExtent)
    requires
        gc_list(v),
        pos_rho(v, k) == valid_extent(e),
    ensures
        rho_remaining(v, k) == seq![e] + rho_remaining(v, Position::Valid(e.1).spec_increment()),
        rho_remaining(v, Position::Valid(e.1).spec_increment()).len() < rho_remaining(v, k).len(),
{
    let i = first_end_geq(v, fwd_key(k));
    lemma_first_end_geq_char(v, fwd_key(k));
    assert(0 <= i < v.len() && v[i] == e);
    if e.1 == u64::MAX {
        if i < v.len() - 1 {
            assert(v[i + 1].1 > u64::MAX);
        }
        assert(i == v.len() - 1);
        assert(rho_remaining(v, k) =~= seq![e]);
        assert(rho_remaining(v, Position::Valid(e.1).spec_increment()) =~= Seq::empty());
    } else {
        let kv2 = (e.1 + 1) as u64;
        assert(forall|j: int| 0 <= j <= i ==> (#[trigger] v[j]).1 < kv2);
        lemma_first_end_geq_at(v, kv2, i + 1);
        assert(rho_remaining(v, k) =~= seq![e] + rho_remaining(
            v,
            Position::Valid(e.1).spec_increment(),
        ));
    }
}

proof fn lemma_rho_done(v: Seq<ValidExtent>, k: Position)
    requires
        pos_rho(v, k) == end_extent(),
    ensures
        rho_remaining(v, k) == Seq::<ValidExtent>::empty(),
{
    if !(k is PositiveInfinity) {
        lemma_first_end_geq_char(v, fwd_key(k));
        assert(rho_remaining(v, k) =~= Seq::<ValidExtent>::empty());
    }
}

/// Iterates over the extent list in the backward direction using the
/// tau-prime primitive.
#[derive(Debug, Copy, Clone)]
pub struct IterTauPrime<T> {
    pub list: T,
    pub k: Position,
}

impl<T: Algebra> IterTauPrime<T> {
    /// The next extent of the stream: `tau_prime` at the cursor, with
    /// the cursor retreated past the returned end.
    pub fn next(&mut self) -> (r: Option<ValidExtent>)
        requires
            old(self).list.inv(),
        ensures
            final(self).list == old(self).list,
            match r {
                Some(e) => {
                    &&& pos_tau_prime(old(self).list.extents(), old(self).k) == valid_extent(e)
                    &&& final(self).k == Position::Valid(e.1).spec_decrement()
                },
                None => {
                    &&& pos_tau_prime(old(self).list.extents(), old(self).k) == start_extent()
                    &&& final(self).k == old(self).k
                },
            },
    {
        let Extent(p, q) = self.list.tau_prime(self.k);
        if let Position::Valid(_) = q {
            proof {
                self.list.lemma_extents_gc();
            }
            self.k = q.decrement();
            let e = Extent(p, q).unwrap();
            Some(e)
        } else {
            assert(Extent(p, q) == start_extent());
            None
        }
    }

    /// Materializes the rest of the stream.  Started fresh, this
    /// yields exactly the reverse of the operator's view: backward
    /// iteration produces the forward extents in reverse order.
    pub fn into_vec(self) -> (out: Vec<ValidExtent>)
        requires
            self.list.inv(),
        ensures
            out@ == tau_prime_remaining(self.list.extents(), self.k),
            self.k == Position::PositiveInfinity ==> out@ == self.list.extents().reverse(),
    {
        let ghost v = self.list.extents();
        proof {
            self.list.lemma_extents_gc();
        }
        let mut it = self;
        let mut out: Vec<ValidExtent> = Vec::new();
        loop
            invariant
                it.list == self.list,
                it.list.inv(),
                v == it.list.extents(),
                gc_list(v),
                out@ + tau_prime_remaining(v, it.k) == tau_prime_remaining(v, self.k),
            ensures
                out@ == tau_prime_remaining(v, self.k),
            decreases tau_prime_remaining(v, it.k).len(),
        {
            let ghost k0 = it.k;
            match it.next() {
                Some(e) => {
                    proof {
                        lemma_tau_prime_step(v, k0, e);
                    }
                    out.push(e);
                },
                None => {
                    proof {
                        lemma_tau_prime_done(v, k0);
                        assert(out@ + tau_prime_remaining(v, k0) =~= out@);
                    }
                    break;
                },
            }
        }
        proof {
            if self.k is PositiveInfinity {
                lemma_last_end_leq_char(v, u64::MAX);
                assert(last_end_leq(v, u64::MAX) == v.len() - 1) by {
                    lemma_last_end_leq_at(v, u64::MAX, v.len() - 1);
                }
                assert(v.take(v.len() as int) =~= v);
            }
        }
        out
    }
}

proof fn lemma_tau_prime_step(v: Seq<ValidExtent>, k: Position, e: ValidExtent)
    requires
        gc_list(v),
        pos_tau_prime(v, k) == valid_extent(e),
    ensures
        tau_prime_remaining(v, k) == seq![e] + tau_prime_remaining(
            v,
            Position::Valid(e.1).spec_decrement(),
        ),
        tau_prime_remaining(v, Position::Valid(e.1).spec_decrement()).len() < tau_prime_remaining(
            v,
            k,
        ).len(),
{
    let i = last_end_leq(v, bwd_key(k));
    lemma_last_end_leq_char(v, bwd_key(k));
    assert(0 <= i < v.len() && v[i] == e);
    if e.1 == 0 {
        // nothing can end before position zero, so e is first
        if i > 0 {
            assert(v[i - 1].1 < v[i].1);
        }
        assert(i == 0);
        assert(tau_prime_remaining(v, k) =~= seq![e]);
        assert(tau_prime_remaining(v, Position::Valid(e.1).spec_decrement()) =~= Seq::empty());
    } else {
        let kv2 = (e.1 - 1) as u64;
        assert(forall|j: int| i <= j < v.len() ==> (#[trigger] v[j]).1 > kv2);
        lemma_last_end_leq_at(v, kv2, i - 1);
        assert(tau_prime_remaining(v, k) =~= seq![e] + tau_prime_remaining(
            v,
            Position::Valid(e.1).spec_decrement(),
        ));
    }
}

proof fn lemma_tau_prime_done(v: Seq<ValidExtent>, k: Position)
    requires
        pos_tau_prime(v, k) == start_extent(),
    ensures
        tau_prime_remaining(v, k) == Seq::<ValidExtent>::empty(),
{
    if !(k is NegativeInfinity) {
        lemma_last_end_leq_char(v, bwd_key(k));
        assert(tau_prime_remaining(v, k) =~= Seq::<ValidExtent>::empty());
    }
}

/// Iterates over the extent list in the backward direction using the
/// rho-prime primitive.
#[derive(Debug, Copy, Clone)]
pub struct IterRhoPrime<T> {
    pub list: T,
    pub k: Position,
}

impl<T: Algebra> IterRhoPrime<T> {
    /// The next extent of the stream: `rho_prime` at the cursor, with
    /// the cursor retreated past the returned start.
    pub fn next(&mut self) -> (r: Option<ValidExtent>)
        requires
            old(self).list.inv(),
        ensures
            final(self).list == old(self).list,
            match r {
                Some(e) => {
                    &&& pos_rho_prime(old(self).list.extents(), old(self).k) == valid_extent(e)
                    &&& final(self).k == Position::Valid(e.0).spec_decrement()
                },
                None => {
                    &&& pos_rho_prime(old(self).list.extents(), old(self).k) == start_extent()
                    &&& final(self).k == old(self).k
                },
            },
    {
        let Extent(p, q) = self.list.rho_prime(self.k);
        if let Position::Valid(_) = p {
            proof {
                self.list.lemma_extents_gc();
            }
            self.k = p.decrement();
            let e = Extent(p, q).unwrap();
            Some(e)
        } else {
            assert(Extent(p, q) == start_extent());
            None
        }
    }

    /// Materializes the rest of the stream.  Started fresh, this
    /// yields exactly the reverse of the operator's view, just as
    /// `tau_prime` iteration does.
    pub fn into_vec(self) -> (out: Vec<ValidExtent>)
        requires
            self.list.inv(),
        ensures
            out@ == rho_prime_remaining(self.list.extents(), self.k),
            self.k == Position::PositiveInfinity ==> out@ == self.list.extents().reverse(),
    {
        let ghost v = self.list.extents();
        proof {
            self.list.lemma_extents_gc();
        }
        let mut it = self;
        let mut out: Vec<ValidExtent> = Vec::new();
        loop
            invariant
                it.list == self.list,
                it.list.inv(),
                v == it.list.extents(),
                gc_list(v),
                out@ + rho_prime_remaining(v, it.k) == rho_prime_remaining(v, self.k),
            ensures
                out@ == rho_prime_remaining(v, self.k),
            decreases rho_prime_remaining(v, it.k).len(),
        {
            let ghost k0 = it.k;
            match it.next() {
                Some(e) => {
                    proof {
                        lemma_rho_prime_step(v, k0, e);
                    }
                    out.push(e);
                },
                None => {
                    proof {
                        lemma_rho_prime_done(v, k0);
                        assert(out@ + rho_prime_remaining(v, k0) =~= out@);
                    }
                    break;
                },
            }
        }
        proof {
            if self.k is PositiveInfinity {
                lemma_last_start_leq_char(v, u64::MAX);
                assert(last_start_leq(v, u64::MAX) == v.len() - 1) by {
                    lemma_last_start_leq_at(v, u64::MAX, v.len() - 1);
                }
                assert(v.take(v.len() as int) =~= v);
            }
        }
        out
    }
}

proof fn lemma_rho_prime_step(v: Seq<ValidExtent>, k: Position, e: ValidExtent)
    requires
        gc_list(v),
        pos_rho_prime(v, k) == valid_extent(e),
    ensures
        rho_prime_remaining(v, k) == seq![e] + rho_prime_remaining(
            v,
            Position::Valid(e.0).spec_decrement(),
        ),
        rho_prime_remaining(v, Position::Valid(e.0).spec_decrement()).len() < rho_prime_remaining(
            v,
            k,
        ).len(),
{
    let i = last_start_leq(v, bwd_key(k));
    lemma_last_start_leq_char(v, bwd_key(k));
    assert(0 <= i < v.len() && v[i] == e);
    if e.0 == 0 {
        if i > 0 {
            assert(v[i - 1].0 < v[i].0);
        }
        assert(i == 0);
        assert(rho_prime_remaining(v, k) =~= seq![e]);
        assert(rho_prime_remaining(v, Position::Valid(e.0).spec_decrement()) =~= Seq::empty());
    } else {
        let kv2 = (e.0 - 1) as u64;
        assert(forall|j: int| i <= j < v.len() ==> (#[trigger] v[j]).0 > kv2);
        lemma_last_start_leq_at(v, kv2, i - 1);
        assert(rho_prime_remaining(v, k) =~= seq![e] + rho_prime_remaining(
            v,
            Position::Valid(e.0).spec_decrement(),
        ));
    }
}

proof fn lemma_rho_prime_done(v: Seq<ValidExtent>, k: Position)
    requires
        pos_rho_prime(v, k) == start_extent(),
    ensures
        rho_prime_remaining(v, k) == Seq::<ValidExtent>::empty(),
{
    if !(k is NegativeInfinity) {
        lemma_last_start_leq_char(v, bwd_key(k));
        assert(rho_prime_remaining(v, k) =~= Seq::<ValidExtent>::empty());
    }
}

} // verus!
