//! Grow-only counter.
use vstd::prelude::*;
use crate::convergent::{Convergent, DeltaConvergent, ReplicaState};
use crate::vtime::{ReplicaId, VTime, clock_at, clock_gains, clock_raise, clock_join, clock_total, clock_wf};

verus! {

/// The changes of a grow-only counter since its last hand-out.
#[derive(Debug)]
pub struct Delta(VTime);

impl View for Delta {
    type V = Map<ReplicaId, u64>;

    closed spec fn view(&self) -> Map<ReplicaId, u64> {
        self.0@
    }
}

impl Delta {
    pub fn new() -> (d: Delta)
        ensures
            d@ == Map::<ReplicaId, u64>::empty(),
    {
        Delta(VTime::new())
    }

    pub fn merge(&mut self, other: &Delta) -> (r: bool)
        ensures
            final(self)@ == clock_join(old(self)@, other@),
            r == clock_gains(old(self)@, other@),
    {
        self.0.merge(&other.0)
    }
}

impl Clone for Delta {
    fn clone(&self) -> (r: Self)
        ensures
            r@ == self@,
    {
        Delta(self.0.clone())
    }
}

impl Convergent for Delta {
    open spec fn merged(this: Map<ReplicaId, u64>, other: Map<ReplicaId, u64>) -> Map<ReplicaId, u64> {
        clock_join(this, other)
    }

    fn merge(&mut self, other: &Self) -> bool {
        Delta::merge(self, other)
    }
}

/// A counter that replicas only increase; its value is the sum of the per-replica counts.
#[derive(Debug)]
pub struct GCounter {
    counter: VTime,
    pending: Option<VTime>,
}

/// The pending changes as a clock; nothing pending reads as the empty clock.
pub open spec fn pending_clock(p: Option<Map<ReplicaId, u64>>) -> Map<ReplicaId, u64> {
    match p {
        Some(d) => d,
        None => Map::empty(),
    }
}

/// A grow-only counter's state after adding `delta` at replica `id`.
pub open spec fn counter_after_add(
    v: (Map<ReplicaId, u64>, Option<Map<ReplicaId, u64>>),
    id: ReplicaId,
    delta: u64,
) -> (Map<ReplicaId, u64>, Option<Map<ReplicaId, u64>>) {
    if delta == 0 {
        v
    } else {
        let n = (clock_at(v.0, id) + delta) as u64;
        (v.0.insert(id, n), Some(clock_raise(pending_clock(v.1), id, n)))
    }
}

impl View for GCounter {
    /// The per-replica counts, and the changes not yet handed out.
    type V = (Map<ReplicaId, u64>, Option<Map<ReplicaId, u64>>);

    closed spec fn view(&self) -> (Map<ReplicaId, u64>, Option<Map<ReplicaId, u64>>) {
        (
            self.counter@,
            match self.pending {
                Some(d) => Some(d@),
                None => None,
            },
        )
    }
}

impl GCounter {
    pub fn new() -> (c: GCounter)
        ensures
            c@.0 == Map::<ReplicaId, u64>::empty(),
            c@.1 is None,
            clock_wf(c@.0),
    {
        GCounter { counter: VTime::new(), pending: None }
    }

    /// Adds `delta` to the count of replica `id`.
    pub fn add(&mut self, id: ReplicaId, delta: u64)
        requires
            clock_at(old(self)@.0, id) + delta <= u64::MAX,
        ensures
            final(self)@ == counter_after_add(old(self)@, id, delta),
            clock_wf(old(self)@.0) ==> clock_wf(final(self)@.0),
    {
        if delta > 0 {
            let dot = self.counter.inc_by(id, delta);
            let mut d = match self.pending.take() {
                Some(d) => d,
                None => VTime::new(),
            };
            d.set(dot);
            self.pending = Some(d);
        }
    }

    /// Returns the count of replica `id`.
    pub fn get(&self, id: &ReplicaId) -> (r: u64)
        ensures
            r == clock_at(self@.0, *id),
    {
        self.counter.get(id)
    }

    /// Whether no replica has counted anything.
    pub fn is_empty(&self) -> (r: bool)
        ensures
            r == (self@.0 == Map::<ReplicaId, u64>::empty()),
    {
        self.counter.is_empty()
    }

    /// The counter's value: the sum over all replicas.
    pub fn value(&self) -> (r: u64)
        requires
            clock_total(self@.0) <= u64::MAX,
        ensures
            r == clock_total(self@.0),
    {
        self.counter.sum()
    }

    /// Folds in the counts of another replica; pending changes stay as they are.
    pub fn merge(&mut self, other: &GCounter) -> (r: bool)
        ensures
            final(self)@.0 == clock_join(old(self)@.0, other@.0),
            final(self)@.1 == old(self)@.1,
            r == clock_gains(old(self)@.0, other@.0),
            clock_wf(final(self)@.0),
    {
        let r = self.counter.merge(&other.counter);
        r
    }

    /// Moves the pending changes out.
    pub fn delta(&mut self) -> (r: Option<Delta>)
        ensures
            final(self)@.0 == old(self)@.0,
            final(self)@.1 is None,
            r is Some <==> old(self)@.1 is Some,
            r is Some ==> Some(r->0@) == old(self)@.1,
    {
        match self.pending.take() {
            Some(d) => Some(Delta(d)),
            None => None,
        }
    }

    /// Folds in changes handed out by another replica.
    pub fn merge_delta(&mut self, other: &Delta) -> (r: bool)
        ensures
            final(self)@.0 == clock_join(old(self)@.0, other@),
            final(self)@.1 == old(self)@.1,
            r == clock_gains(old(self)@.0, other@),
            clock_wf(final(self)@.0),
    {
        let r = self.counter.merge(&other.0);
        r
    }
}

impl Clone for GCounter {
    fn clone(&self) -> (r: Self)
        ensures
            r@ == self@,
    {
        let pending = match &self.pending {
            Some(d) => Some(d.clone()),
            None => None,
        };
        GCounter { counter: self.counter.clone(), pending }
    }
}

impl Default for GCounter {
    fn default() -> (r: Self)
        ensures
            r@.0 == Map::<ReplicaId, u64>::empty(),
            r@.1 is None,
    {
        GCounter::new()
    }
}

impl Convergent for GCounter {
    open spec fn merged(
        this: (Map<ReplicaId, u64>, Option<Map<ReplicaId, u64>>),
        other: (Map<ReplicaId, u64>, Option<Map<ReplicaId, u64>>),
    ) -> (Map<ReplicaId, u64>, Option<Map<ReplicaId, u64>>) {
        (clock_join(this.0, other.0), this.1)
    }

    fn merge(&mut self, other: &Self) -> bool {
        GCounter::merge(self, other)
    }
}

impl DeltaConvergent for GCounter {
    type Delta = Delta;

    open spec fn delta_merged(
        this: (Map<ReplicaId, u64>, Option<Map<ReplicaId, u64>>),
        delta: Map<ReplicaId, u64>,
    ) -> (Map<ReplicaId, u64>, Option<Map<ReplicaId, u64>>) {
        (clock_join(this.0, delta), this.1)
    }

    open spec fn pending(this: (Map<ReplicaId, u64>, Option<Map<ReplicaId, u64>>)) -> Option<
        Map<ReplicaId, u64>,
    > {
        this.1
    }

    open spec fn handed_out(this: (Map<ReplicaId, u64>, Option<Map<ReplicaId, u64>>)) -> (
        Map<ReplicaId, u64>,
        Option<Map<ReplicaId, u64>>,
    ) {
        (this.0, None)
    }

    fn delta(&mut self) -> Option<Delta> {
        GCounter::delta(self)
    }

    fn merge_delta(&mut self, other: &Delta) -> bool {
        GCounter::merge_delta(self, other)
    }
}

impl ReplicaState for GCounter {
    open spec fn initial() -> Self::V {
        (Map::empty(), None)
    }

    fn initial_state() -> (r: Self) {
        GCounter::new()
    }

    fn duplicate(&self) -> (r: Self) {
        self.clone()
    }
}

} // verus!
