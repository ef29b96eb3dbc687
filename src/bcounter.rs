//! Bounded counter: a counter whose decrements are limited by per-replica quotas.
use vstd::prelude::*;
use crate::convergent::{Convergent, DeltaConvergent, ReplicaState};
use crate::pncounter;
use crate::pncounter::{PNCounter, pn_after_add, pn_value};
use crate::transfers::{
    Route, Transfers, route_at, routes_from, routes_gain, routes_into, routes_join, routes_total,
};
use crate::vtime::{ReplicaId, clock_at, clock_gains, clock_join, clock_total};

verus! {

/// The model of a positive-negative counter: increments and decrements, each with its
/// pending changes.
pub type PNView = (
    (Map<ReplicaId, u64>, Option<Map<ReplicaId, u64>>),
    (Map<ReplicaId, u64>, Option<Map<ReplicaId, u64>>),
);

/// A decrement or a transfer asked for more than the replica's quota.
#[derive(Debug, Clone, Copy, PartialEq, Eq, Structural)]
pub enum BCounterError {
    QuotaExceeded { replica: ReplicaId, requested: u64, available: i128 },
}

/// The quota of replica `r`: its own net count, plus what it received, less what it sent.
pub open spec fn quota_of(c: PNView, t: Map<Route, u64>, r: ReplicaId) -> int {
    clock_at(c.0.0, r) - clock_at(c.1.0, r) + routes_total(routes_into(t, r)) - routes_total(
        routes_from(t, r),
    )
}

/// The bounds under which the quota of `r` is computed without overflow.
pub open spec fn quota_in_range(c: PNView, t: Map<Route, u64>, r: ReplicaId) -> bool {
    &&& clock_at(c.0.0, r) <= i64::MAX
    &&& clock_at(c.1.0, r) <= i64::MAX
    &&& routes_total(routes_into(t, r)) <= u64::MAX
    &&& routes_total(routes_from(t, r)) <= u64::MAX
}

/// The pending transfers as a map; nothing pending reads as the empty map.
pub open spec fn pending_routes(p: Option<Map<Route, u64>>) -> Map<Route, u64> {
    match p {
        Some(m) => m,
        None => Map::empty(),
    }
}

/// The changes of a bounded counter since its last hand-out.
#[derive(Debug)]
pub struct Delta {
    counter: Option<pncounter::Delta>,
    transfers: Option<Transfers>,
}

impl View for Delta {
    type V = (Option<(Map<ReplicaId, u64>, Map<ReplicaId, u64>)>, Option<Map<Route, u64>>);

    closed spec fn view(&self) -> Self::V {
        (
            match self.counter {
                Some(c) => Some(c@),
                None => None,
            },
            match self.transfers {
                Some(t) => Some(t@),
                None => None,
            },
        )
    }
}

impl Delta {
    pub fn new() -> (d: Delta)
        ensures
            d@.0 is None,
            d@.1 is None,
    {
        Delta { counter: None, transfers: None }
    }

    /// Folds in another delta; an absent part takes the other's part as it is.
    pub fn merge(&mut self, other: &Delta) -> (r: bool)
        ensures
            final(self)@.0 == (match (old(self)@.0, other@.0) {
                (_, None) => old(self)@.0,
                (None, Some(b)) => Some(b),
                (Some(a), Some(b)) => Some((clock_join(a.0, b.0), clock_join(a.1, b.1))),
            }),
            final(self)@.1 == (match (old(self)@.1, other@.1) {
                (_, None) => old(self)@.1,
                (None, Some(b)) => Some(b),
                (Some(a), Some(b)) => Some(routes_join(a, b)),
            }),
            r == ((match (old(self)@.0, other@.0) {
                (_, None) => false,
                (None, Some(_)) => true,
                (Some(a), Some(b)) => clock_gains(a.0, b.0) || clock_gains(a.1, b.1),
            }) || (match (old(self)@.1, other@.1) {
                (_, None) => false,
                (None, Some(_)) => true,
                (Some(a), Some(b)) => routes_gain(a, b),
            })),
    {
        let counter_changed = match &other.counter {
            Some(c2) => {
                match &mut self.counter {
                    Some(c1) => c1.merge(c2),
                    None => {
                        self.counter = Some(c2.clone());
                        true
                    },
                }
            },
            None => false,
        };
        let transfers_changed = match &other.transfers {
            Some(t2) => {
                match &mut self.transfers {
                    Some(t1) => t1.merge(t2),
                    None => {
                        self.transfers = Some(t2.clone());
                        true
                    },
                }
            },
            None => false,
        };
        counter_changed || transfers_changed
    }
}

impl Convergent for Delta {
    open spec fn merged(this: Self::V, other: Self::V) -> Self::V {
        (
            match (this.0, other.0) {
                (_, None) => this.0,
                (None, Some(b)) => Some(b),
                (Some(a), Some(b)) => Some((clock_join(a.0, b.0), clock_join(a.1, b.1))),
            },
            match (this.1, other.1) {
                (_, None) => this.1,
                (None, Some(b)) => Some(b),
                (Some(a), Some(b)) => Some(routes_join(a, b)),
            },
        )
    }

    fn merge(&mut self, other: &Self) -> bool {
        Delta::merge(self, other)
    }
}

/// A counter whose value never drops below zero as long as each replica decrements only
/// within its quota; quota moves between replicas by transfers.
#[derive(Debug)]
pub struct BCounter {
    counter: PNCounter,
    transfers: Transfers,
    pending: Option<Transfers>,
}

impl View for BCounter {
    /// The counter, the transfers, and the transfers not yet handed out.
    type V = (PNView, Map<Route, u64>, Option<Map<Route, u64>>);

    closed spec fn view(&self) -> Self::V {
        (
            self.counter@,
            self.transfers@,
            match self.pending {
                Some(t) => Some(t@),
                None => None,
            },
        )
    }
}

impl BCounter {
    pub fn new() -> (c: BCounter)
        ensures
            c@.0.0.0 == Map::<ReplicaId, u64>::empty(),
            c@.0.1.0 == Map::<ReplicaId, u64>::empty(),
            c@.0.0.1 is None,
            c@.0.1.1 is None,
            c@.1 == Map::<Route, u64>::empty(),
            c@.2 is None,
    {
        BCounter { counter: PNCounter::new(), transfers: Transfers::new(), pending: None }
    }

    /// The quota of replica `id`: the largest decrement it may make.
    pub fn quota(&self, id: &ReplicaId) -> (r: i128)
        requires
            quota_in_range(self@.0, self@.1, *id),
        ensures
            r == quota_of(self@.0, self@.1, *id),
    {
        let own = self.counter.get(id);
        let (inbound, outbound) = self.transfers.flows(*id);
        own as i128 + inbound as i128 - outbound as i128
    }

    /// Adds a signed `delta` at replica `id`. A decrement beyond the replica's quota fails
    /// and changes nothing.
    pub fn add(&mut self, id: ReplicaId, delta: i64) -> (r: Result<(), BCounterError>)
        requires
            delta > 0 ==> clock_at(old(self)@.0.0.0, id) + delta <= u64::MAX,
            delta < 0 ==> clock_at(old(self)@.0.1.0, id) - delta <= u64::MAX,
            delta < 0 ==> quota_in_range(old(self)@.0, old(self)@.1, id),
        ensures
            r is Err <==> (delta < 0 && quota_of(old(self)@.0, old(self)@.1, id) < -delta),
            r is Err ==> final(self)@ == old(self)@,
            r is Ok ==> final(self)@ == (
                pn_after_add(old(self)@.0, id, delta),
                old(self)@.1,
                old(self)@.2,
            ),
    {
        if delta > 0 {
            self.counter.add(id, delta);
            Ok(())
        } else if delta < 0 {
            let available = self.quota(&id);
            let requested = (-(delta + 1)) as u64 + 1;
            if available >= requested as i128 {
                self.counter.add(id, delta);
                Ok(())
            } else {
                Err(BCounterError::QuotaExceeded { replica: id, requested, available })
            }
        } else {
            Ok(())
        }
    }

    /// Moves `quota` of the sender's quota to the recipient. It succeeds only when `quota`
    /// is strictly below the sender's quota; a failure changes nothing.
    pub fn transfer(&mut self, sender: ReplicaId, recipient: ReplicaId, quota: u64) -> (r: Result<
        (),
        BCounterError,
    >)
        requires
            quota_in_range(old(self)@.0, old(self)@.1, sender),
            route_at(old(self)@.1, (sender, recipient)) + quota <= u64::MAX,
            route_at(pending_routes(old(self)@.2), (sender, recipient)) + quota <= u64::MAX,
        ensures
            r is Ok <==> quota < quota_of(old(self)@.0, old(self)@.1, sender),
            r is Err ==> final(self)@ == old(self)@,
            r is Ok ==> final(self)@.0 == old(self)@.0,
            r is Ok ==> final(self)@.1.dom().finite(),
            r is Ok ==> final(self)@.1 == old(self)@.1.insert(
                (sender, recipient),
                (route_at(old(self)@.1, (sender, recipient)) + quota) as u64,
            ),
            r is Ok ==> final(self)@.2 == Some(
                pending_routes(old(self)@.2).insert(
                    (sender, recipient),
                    (route_at(pending_routes(old(self)@.2), (sender, recipient)) + quota) as u64,
                ),
            ),
    {
        let available = self.quota(&sender);
        if (quota as i128) < available {
            self.transfers.add((sender, recipient), quota);
            let mut p = match self.pending.take() {
                Some(p) => p,
                None => Transfers::new(),
            };
            p.add((sender, recipient), quota);
            self.pending = Some(p);
            Ok(())
        } else {
            Err(BCounterError::QuotaExceeded { replica: sender, requested: quota, available })
        }
    }

    /// The counter's value.
    pub fn value(&self) -> (r: u64)
        requires
            clock_total(self@.0.0.0) <= i64::MAX,
            clock_total(self@.0.1.0) <= i64::MAX,
            pn_value(self@.0.0.0, self@.0.1.0) >= 0,
        ensures
            r == pn_value(self@.0.0.0, self@.0.1.0),
    {
        self.counter.value() as u64
    }

    /// Folds in another replica's counter and transfers; pending changes stay as they are.
    pub fn merge(&mut self, other: &BCounter) -> (r: bool)
        ensures
            final(self)@.0.0.0 == clock_join(old(self)@.0.0.0, other@.0.0.0),
            final(self)@.0.1.0 == clock_join(old(self)@.0.1.0, other@.0.1.0),
            final(self)@.0.0.1 == old(self)@.0.0.1,
            final(self)@.0.1.1 == old(self)@.0.1.1,
            final(self)@.1 == routes_join(old(self)@.1, other@.1),
            final(self)@.2 == old(self)@.2,
            final(self)@.1.dom().finite(),
            r == (clock_gains(old(self)@.0.0.0, other@.0.0.0) || clock_gains(
                old(self)@.0.1.0,
                other@.0.1.0,
            ) || routes_gain(old(self)@.1, other@.1)),
    {
        let counter_changed = self.counter.merge(&other.counter);
        let transfers_changed = self.transfers.merge(&other.transfers);
        counter_changed || transfers_changed
    }

    /// Moves the pending changes out; `None` when there are none.
    pub fn delta(&mut self) -> (r: Option<Delta>)
        ensures
            final(self)@.0.0.0 == old(self)@.0.0.0,
            final(self)@.0.1.0 == old(self)@.0.1.0,
            final(self)@.0.0.1 is None,
            final(self)@.0.1.1 is None,
            final(self)@.1 == old(self)@.1,
            final(self)@.2 is None,
            r is Some <==> (old(self)@.0.0.1 is Some || old(self)@.0.1.1 is Some || old(self)@.2 is Some),
            r is Some ==> (r->0@.0 is Some <==> (old(self)@.0.0.1 is Some || old(self)@.0.1.1 is Some)),
            r is Some && r->0@.0 is Some ==> r->0@.0->0 == (
                crate::gcounter::pending_clock(old(self)@.0.0.1),
                crate::gcounter::pending_clock(old(self)@.0.1.1),
            ),
            r is Some ==> r->0@.1 == old(self)@.2,
    {
        let counter = self.counter.delta();
        let transfers = self.pending.take();
        if counter.is_none() && transfers.is_none() {
            None
        } else {
            Some(Delta { counter, transfers })
        }
    }

    /// Folds in changes handed out by another replica.
    pub fn merge_delta(&mut self, other: &Delta) -> (r: bool)
        ensures
            final(self)@.0.0.0 == (match other@.0 {
                Some(c) => clock_join(old(self)@.0.0.0, c.0),
                None => old(self)@.0.0.0,
            }),
            final(self)@.0.1.0 == (match other@.0 {
                Some(c) => clock_join(old(self)@.0.1.0, c.1),
                None => old(self)@.0.1.0,
            }),
            final(self)@.0.0.1 == old(self)@.0.0.1,
            final(self)@.0.1.1 == old(self)@.0.1.1,
            final(self)@.1 == (match other@.1 {
                Some(t) => routes_join(old(self)@.1, t),
                None => old(self)@.1,
            }),
            final(self)@.2 == old(self)@.2,
            r == ((match other@.0 {
                Some(c) => clock_gains(old(self)@.0.0.0, c.0) || clock_gains(old(self)@.0.1.0, c.1),
                None => false,
            }) || (match other@.1 {
                Some(t) => routes_gain(old(self)@.1, t),
                None => false,
            })),
    {
        let counter_changed = match &other.counter {
            Some(c) => self.counter.merge_delta(c),
            None => false,
        };
        let transfers_changed = match &other.transfers {
            Some(t) => self.transfers.merge(t),
            None => false,
        };
        counter_changed || transfers_changed
    }
}

impl Clone for BCounter {
    fn clone(&self) -> (r: Self)
        ensures
            r@ == self@,
    {
        let pending = match &self.pending {
            Some(p) => Some(p.clone()),
            None => None,
        };
        BCounter { counter: self.counter.clone(), transfers: self.transfers.clone(), pending }
    }
}

impl Default for BCounter {
    fn default() -> (r: Self)
        ensures
            r@.0.0.0 == Map::<ReplicaId, u64>::empty(),
            r@.0.1.0 == Map::<ReplicaId, u64>::empty(),
            r@.1 == Map::<Route, u64>::empty(),
            r@.2 is None,
    {
        BCounter::new()
    }
}

impl Convergent for BCounter {
    open spec fn merged(this: Self::V, other: Self::V) -> Self::V {
        (
            (
                (clock_join(this.0.0.0, other.0.0.0), this.0.0.1),
                (clock_join(this.0.1.0, other.0.1.0), this.0.1.1),
            ),
            routes_join(this.1, other.1),
            this.2,
        )
    }

    fn merge(&mut self, other: &Self) -> bool {
        BCounter::merge(self, other)
    }
}

impl DeltaConvergent for BCounter {
    type Delta = Delta;

    open spec fn delta_merged(this: Self::V, delta: <Delta as View>::V) -> Self::V {
        (
            (
                (
                    match delta.0 {
                        Some(c) => clock_join(this.0.0.0, c.0),
                        None => this.0.0.0,
                    },
                    this.0.0.1,
                ),
                (
                    match delta.0 {
                        Some(c) => clock_join(this.0.1.0, c.1),
                        None => this.0.1.0,
                    },
                    this.0.1.1,
                ),
            ),
            match delta.1 {
                Some(t) => routes_join(this.1, t),
                None => this.1,
            },
            this.2,
        )
    }

    open spec fn pending(this: Self::V) -> Option<<Delta as View>::V> {
        if this.0.0.1 is None && this.0.1.1 is None && this.2 is None {
            None
        } else {
            Some(
                (
                    if this.0.0.1 is None && this.0.1.1 is None {
                        None
                    } else {
                        Some(
                            (
                                crate::gcounter::pending_clock(this.0.0.1),
                                crate::gcounter::pending_clock(this.0.1.1),
                            ),
                        )
                    },
                    this.2,
                ),
            )
        }
    }

    open spec fn handed_out(this: Self::V) -> Self::V {
        (((this.0.0.0, None), (this.0.1.0, None)), this.1, None)
    }

    fn delta(&mut self) -> Option<Delta> {
        BCounter::delta(self)
    }

    fn merge_delta(&mut self, other: &Delta) -> bool {
        BCounter::merge_delta(self, other)
    }
}

impl ReplicaState for BCounter {
    open spec fn initial() -> Self::V {
        (((Map::empty(), None), (Map::empty(), None)), Map::empty(), None)
    }

    fn initial_state() -> (r: Self) {
        BCounter::new()
    }

    fn duplicate(&self) -> (r: Self) {
        self.clone()
    }
}

} // verus!
