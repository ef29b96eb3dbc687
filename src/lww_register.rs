//! Last-write-wins register.
use vstd::prelude::*;
use crate::convergent::{Convergent, DeltaConvergent, ReplicaState};
use crate::hlc::HybridTime;
use crate::vtime::ReplicaId;

verus! {

/// A written value with the time and the replica of its write.
#[derive(Debug, Clone, Copy)]
pub struct Delta<T> {
    pub value: T,
    pub timestamp: HybridTime,
    pub replica_id: ReplicaId,
}

/// Whether, on merge, write `b` replaces write `a`: it is later, or as late and from a
/// replica with a smaller identifier.
pub open spec fn lww_replaces<T>(a: Delta<T>, b: Delta<T>) -> bool {
    a.timestamp.0 < b.timestamp.0 || (a.timestamp.0 == b.timestamp.0 && b.replica_id
        < a.replica_id)
}

/// The register after merging write `b` into `a`.
pub open spec fn lww_merged<T>(a: Option<Delta<T>>, b: Delta<T>) -> Option<Delta<T>> {
    match a {
        None => Some(b),
        Some(x) => if lww_replaces(x, b) {
            Some(b)
        } else {
            Some(x)
        },
    }
}

/// The register after a local write of `value` by replica `id` at time `now`.
pub open spec fn lww_assigned<T>(
    a: Option<Delta<T>>,
    id: ReplicaId,
    value: T,
    now: HybridTime,
) -> Option<Delta<T>> {
    match a {
        None => Some(Delta { value, timestamp: now, replica_id: id }),
        Some(x) => if x.timestamp.0 < now.0 || (x.timestamp.0 == now.0 && x.replica_id < id) {
            Some(Delta { value, timestamp: now, replica_id: id })
        } else {
            Some(x)
        },
    }
}

impl<T> View for Delta<T> {
    type V = Delta<T>;

    open spec fn view(&self) -> Delta<T> {
        *self
    }
}

impl<T> View for LWWRegister<T> {
    type V = Option<Delta<T>>;

    open spec fn view(&self) -> Option<Delta<T>> {
        self.entry
    }
}

impl<T: Copy> Delta<T> {
    /// Keeps the winning write of the two; returns whether `other` won.
    pub fn merge(&mut self, other: &Delta<T>) -> (r: bool)
        ensures
            r == lww_replaces(*old(self), *other),
            Some(*final(self)) == lww_merged(Some(*old(self)), *other),
    {
        if self.timestamp.0 < other.timestamp.0 || (self.timestamp.0 == other.timestamp.0
            && other.replica_id < self.replica_id) {
            *self = *other;
            true
        } else {
            false
        }
    }
}

impl<T: Copy> Convergent for Delta<T> {
    open spec fn merged(this: Delta<T>, other: Delta<T>) -> Delta<T> {
        lww_merged(Some(this), other)->0
    }

    fn merge(&mut self, other: &Self) -> bool {
        Delta::merge(self, other)
    }
}

/// A register holding at most one value; concurrent writes resolve by time, then by replica.
#[derive(Debug, Clone, Copy)]
pub struct LWWRegister<T> {
    pub entry: Option<Delta<T>>,
}

impl<T: Copy> LWWRegister<T> {
    pub fn new() -> (r: LWWRegister<T>)
        ensures
            r.entry is None,
    {
        LWWRegister { entry: None }
    }

    /// An empty register, to be written with hybrid timestamps.
    pub fn with_hybrid_clock() -> (r: LWWRegister<T>)
        ensures
            r.entry is None,
    {
        LWWRegister::new()
    }

    pub fn is_empty(&self) -> (r: bool)
        ensures
            r == self.entry is None,
    {
        self.entry.is_none()
    }

    /// Writes `value` as replica `id` at time `now`. An entry at a later time stays; at the
    /// same time the write goes through only from a replica with a larger identifier.
    pub fn assign(&mut self, id: ReplicaId, value: T, now: HybridTime)
        ensures
            final(self).entry == lww_assigned(old(self).entry, id, value, now),
    {
        match &mut self.entry {
            Some(e) => {
                if e.timestamp.0 > now.0 {
                } else if e.timestamp.0 == now.0 {
                    if e.replica_id < id {
                        e.value = value;
                        e.replica_id = id;
                    }
                } else {
                    e.timestamp = now;
                    e.replica_id = id;
                    e.value = value;
                }
            },
            None => {
                self.entry = Some(Delta { value, timestamp: now, replica_id: id });
            },
        }
    }

    /// The current value, if any.
    pub fn value(&self) -> (r: Option<T>)
        ensures
            r == (match self.entry {
                Some(e) => Some(e.value),
                None => None,
            }),
    {
        match &self.entry {
            Some(e) => Some(e.value),
            None => None,
        }
    }

    /// The current write; reading it leaves the register as it is.
    pub fn delta(&self) -> (r: Option<Delta<T>>)
        ensures
            r == self.entry,
    {
        self.entry
    }

    /// Folds in a write from another replica; returns whether it won.
    pub fn merge_delta(&mut self, other: &Delta<T>) -> (r: bool)
        ensures
            final(self).entry == lww_merged(old(self).entry, *other),
            r == (match old(self).entry {
                None => true,
                Some(x) => lww_replaces(x, *other),
            }),
    {
        match &mut self.entry {
            Some(this) => this.merge(other),
            None => {
                self.entry = Some(*other);
                true
            },
        }
    }

    /// Folds in another replica's register; returns whether its write won.
    pub fn merge(&mut self, other: &LWWRegister<T>) -> (r: bool)
        ensures
            final(self).entry == (match other.entry {
                Some(b) => lww_merged(old(self).entry, b),
                None => old(self).entry,
            }),
            r == (match (old(self).entry, other.entry) {
                (_, None) => false,
                (None, Some(_)) => true,
                (Some(a), Some(b)) => lww_replaces(a, b),
            }),
    {
        match &other.entry {
            Some(v2) => self.merge_delta(v2),
            None => false,
        }
    }
}

impl<T: Copy> Default for LWWRegister<T> {
    fn default() -> (r: Self)
        ensures
            r.entry is None,
    {
        LWWRegister::new()
    }
}

impl<T: Copy> Convergent for LWWRegister<T> {
    open spec fn merged(this: Option<Delta<T>>, other: Option<Delta<T>>) -> Option<Delta<T>> {
        match other {
            Some(b) => lww_merged(this, b),
            None => this,
        }
    }

    fn merge(&mut self, other: &Self) -> bool {
        LWWRegister::merge(self, other)
    }
}

impl<T: Copy> DeltaConvergent for LWWRegister<T> {
    type Delta = Delta<T>;

    open spec fn delta_merged(this: Option<Delta<T>>, delta: Delta<T>) -> Option<Delta<T>> {
        lww_merged(this, delta)
    }

    open spec fn pending(this: Option<Delta<T>>) -> Option<Delta<T>> {
        this
    }

    open spec fn handed_out(this: Option<Delta<T>>) -> Option<Delta<T>> {
        this
    }

    fn delta(&mut self) -> Option<Delta<T>> {
        LWWRegister::delta(self)
    }

    fn merge_delta(&mut self, other: &Delta<T>) -> bool {
        LWWRegister::merge_delta(self, other)
    }
}

impl<T: Copy> ReplicaState for LWWRegister<T> {
    open spec fn initial() -> Option<Delta<T>> {
        None
    }

    fn initial_state() -> (r: Self) {
        LWWRegister::new()
    }

    fn duplicate(&self) -> (r: Self) {
        *self
    }
}

} // verus!
