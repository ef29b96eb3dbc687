//! Counter that replicas may increase and decrease.
use vstd::prelude::*;
use crate::convergent::{Convergent, DeltaConvergent, ReplicaState};
use crate::gcounter;
use crate::gcounter::{GCounter, counter_after_add, pending_clock};
use crate::vtime::{ReplicaId, clock_at, clock_gains, clock_join, clock_total};

verus! {

/// The changes of a positive-negative counter since its last hand-out: increments, then
/// decrements.
#[derive(Debug)]
pub struct Delta(gcounter::Delta, gcounter::Delta);

impl View for Delta {
    type V = (Map<ReplicaId, u64>, Map<ReplicaId, u64>);

    closed spec fn view(&self) -> (Map<ReplicaId, u64>, Map<ReplicaId, u64>) {
        (self.0@, self.1@)
    }
}

impl Delta {
    pub fn new() -> (d: Delta)
        ensures
            d@.0 == Map::<ReplicaId, u64>::empty(),
            d@.1 == Map::<ReplicaId, u64>::empty(),
    {
        Delta(gcounter::Delta::new(), gcounter::Delta::new())
    }

    pub fn merge(&mut self, other: &Delta) -> (r: bool)
        ensures
            final(self)@.0 == clock_join(old(self)@.0, other@.0),
            final(self)@.1 == clock_join(old(self)@.1, other@.1),
            r == (clock_gains(old(self)@.0, other@.0) || clock_gains(old(self)@.1, other@.1)),
    {
        let a = self.0.merge(&other.0);
        let b = self.1.merge(&other.1);
        a || b
    }
}

impl Clone for Delta {
    fn clone(&self) -> (r: Self)
        ensures
            r@ == self@,
    {
        Delta(self.0.clone(), self.1.clone())
    }
}

impl Convergent for Delta {
    open spec fn merged(
        this: (Map<ReplicaId, u64>, Map<ReplicaId, u64>),
        other: (Map<ReplicaId, u64>, Map<ReplicaId, u64>),
    ) -> (Map<ReplicaId, u64>, Map<ReplicaId, u64>) {
        (clock_join(this.0, other.0), clock_join(this.1, other.1))
    }

    fn merge(&mut self, other: &Self) -> bool {
        Delta::merge(self, other)
    }
}

/// Value of a positive-negative counter: all increments less all decrements.
pub open spec fn pn_value(inc: Map<ReplicaId, u64>, dec: Map<ReplicaId, u64>) -> int {
    clock_total(inc) - clock_total(dec)
}

/// A positive-negative counter's state after adding the signed `value` at replica `id`.
pub open spec fn pn_after_add(
    v: ((Map<ReplicaId, u64>, Option<Map<ReplicaId, u64>>), (Map<ReplicaId, u64>, Option<Map<ReplicaId, u64>>)),
    id: ReplicaId,
    value: i64,
) -> ((Map<ReplicaId, u64>, Option<Map<ReplicaId, u64>>), (Map<ReplicaId, u64>, Option<Map<ReplicaId, u64>>)) {
    if value > 0 {
        (counter_after_add(v.0, id, value as u64), v.1)
    } else if value < 0 {
        (v.0, counter_after_add(v.1, id, (-value) as u64))
    } else {
        v
    }
}

/// A counter that replicas may increase and decrease: a grow-only counter of increments and
/// one of decrements.
#[derive(Debug)]
pub struct PNCounter {
    inc: GCounter,
    dec: GCounter,
}

impl View for PNCounter {
    /// The states of the increment and of the decrement counter.
    type V = (
        (Map<ReplicaId, u64>, Option<Map<ReplicaId, u64>>),
        (Map<ReplicaId, u64>, Option<Map<ReplicaId, u64>>),
    );

    closed spec fn view(&self) -> Self::V {
        (self.inc@, self.dec@)
    }
}

impl PNCounter {
    pub fn new() -> (c: PNCounter)
        ensures
            c@.0.0 == Map::<ReplicaId, u64>::empty(),
            c@.1.0 == Map::<ReplicaId, u64>::empty(),
            c@.0.1 is None,
            c@.1.1 is None,
    {
        PNCounter { inc: GCounter::new(), dec: GCounter::new() }
    }

    /// Adds a signed `value` at replica `id`: a positive one to the increments, a negative
    /// one, by its magnitude, to the decrements; zero changes nothing.
    pub fn add(&mut self, id: ReplicaId, value: i64)
        requires
            value > 0 ==> clock_at(old(self)@.0.0, id) + value <= u64::MAX,
            value < 0 ==> clock_at(old(self)@.1.0, id) - value <= u64::MAX,
        ensures
            final(self)@ == pn_after_add(old(self)@, id, value),
    {
        if value > 0 {
            self.inc.add(id, value as u64);
        } else if value < 0 {
            let magnitude = (-(value + 1)) as u64 + 1;
            self.dec.add(id, magnitude);
        }
    }

    /// Returns the net count of replica `id`.
    pub fn get(&self, id: &ReplicaId) -> (r: i64)
        requires
            clock_at(self@.0.0, *id) <= i64::MAX,
            clock_at(self@.1.0, *id) <= i64::MAX,
        ensures
            r == clock_at(self@.0.0, *id) - clock_at(self@.1.0, *id),
    {
        let inc = self.inc.get(id);
        let dec = self.dec.get(id);
        (inc as i64) - (dec as i64)
    }

    /// Whether no replica has counted anything in either direction.
    pub fn is_empty(&self) -> (r: bool)
        ensures
            r == (self@.0.0 == Map::<ReplicaId, u64>::empty() && self@.1.0 == Map::<
                ReplicaId,
                u64,
            >::empty()),
    {
        self.inc.is_empty() && self.dec.is_empty()
    }

    /// The counter's value: increments less decrements.
    pub fn value(&self) -> (r: i64)
        requires
            clock_total(self@.0.0) <= i64::MAX,
            clock_total(self@.1.0) <= i64::MAX,
        ensures
            r == pn_value(self@.0.0, self@.1.0),
    {
        let inc = self.inc.value();
        let dec = self.dec.value();
        (inc as i64) - (dec as i64)
    }

    pub fn merge(&mut self, other: &PNCounter) -> (r: bool)
        ensures
            final(self)@.0.0 == clock_join(old(self)@.0.0, other@.0.0),
            final(self)@.1.0 == clock_join(old(self)@.1.0, other@.1.0),
            final(self)@.0.1 == old(self)@.0.1,
            final(self)@.1.1 == old(self)@.1.1,
            r == (clock_gains(old(self)@.0.0, other@.0.0) || clock_gains(
                old(self)@.1.0,
                other@.1.0,
            )),
    {
        let a = self.inc.merge(&other.inc);
        let b = self.dec.merge(&other.dec);
        a || b
    }

    /// Moves the pending changes of both directions out; `None` when neither has any.
    pub fn delta(&mut self) -> (r: Option<Delta>)
        ensures
            final(self)@.0.0 == old(self)@.0.0,
            final(self)@.1.0 == old(self)@.1.0,
            final(self)@.0.1 is None,
            final(self)@.1.1 is None,
            r is Some <==> (old(self)@.0.1 is Some || old(self)@.1.1 is Some),
            r is Some ==> r->0@.0 == pending_clock(old(self)@.0.1) && r->0@.1 == pending_clock(
                old(self)@.1.1,
            ),
    {
        let inc = self.inc.delta();
        let dec = self.dec.delta();
        match (inc, dec) {
            (None, None) => None,
            (Some(i), Some(d)) => Some(Delta(i, d)),
            (Some(i), None) => Some(Delta(i, gcounter::Delta::new())),
            (None, Some(d)) => Some(Delta(gcounter::Delta::new(), d)),
        }
    }

    pub fn merge_delta(&mut self, other: &Delta) -> (r: bool)
        ensures
            final(self)@.0.0 == clock_join(old(self)@.0.0, other@.0),
            final(self)@.1.0 == clock_join(old(self)@.1.0, other@.1),
            final(self)@.0.1 == old(self)@.0.1,
            final(self)@.1.1 == old(self)@.1.1,
            r == (clock_gains(old(self)@.0.0, other@.0) || clock_gains(old(self)@.1.0, other@.1)),
    {
        let a = self.inc.merge_delta(&other.0);
        let b = self.dec.merge_delta(&other.1);
        a || b
    }
}

impl Clone for PNCounter {
    fn clone(&self) -> (r: Self)
        ensures
            r@ == self@,
    {
        PNCounter { inc: self.inc.clone(), dec: self.dec.clone() }
    }
}

impl Default for PNCounter {
    fn default() -> (r: Self)
        ensures
            r@.0.0 == Map::<ReplicaId, u64>::empty(),
            r@.1.0 == Map::<ReplicaId, u64>::empty(),
            r@.0.1 is None,
            r@.1.1 is None,
    {
        PNCounter::new()
    }
}

impl Convergent for PNCounter {
    open spec fn merged(this: Self::V, other: Self::V) -> Self::V {
        ((clock_join(this.0.0, other.0.0), this.0.1), (clock_join(this.1.0, other.1.0), this.1.1))
    }

    fn merge(&mut self, other: &Self) -> bool {
        PNCounter::merge(self, other)
    }
}

impl DeltaConvergent for PNCounter {
    type Delta = Delta;

    open spec fn delta_merged(this: Self::V, delta: (Map<ReplicaId, u64>, Map<ReplicaId, u64>)) -> Self::V {
        ((clock_join(this.0.0, delta.0), this.0.1), (clock_join(this.1.0, delta.1), this.1.1))
    }

    open spec fn pending(this: Self::V) -> Option<(Map<ReplicaId, u64>, Map<ReplicaId, u64>)> {
        if this.0.1 is None && this.1.1 is None {
            None
        } else {
            Some((pending_clock(this.0.1), pending_clock(this.1.1)))
        }
    }

    open spec fn handed_out(this: Self::V) -> Self::V {
        ((this.0.0, None), (this.1.0, None))
    }

    fn delta(&mut self) -> Option<Delta> {
        PNCounter::delta(self)
    }

    fn merge_delta(&mut self, other: &Delta) -> bool {
        PNCounter::merge_delta(self, other)
    }
}

impl ReplicaState for PNCounter {
    open spec fn initial() -> Self::V {
        ((Map::empty(), None), (Map::empty(), None))
    }

    fn initial_state() -> (r: Self) {
        PNCounter::new()
    }

    fn duplicate(&self) -> (r: Self) {
        self.clone()
    }
}

} // verus!
