//! Causally stamped operations of the commutative family.
use vstd::prelude::*;
use crate::hlc::HybridTime;
use crate::vtime::{ReplicaId, VTime, clock_cmp};

verus! {

/// An encoded operation as it travels between replicas, with the sequence numbers that let a
/// receiver notice gaps.
#[derive(Debug, Clone)]
pub struct Event {
    pub origin: ReplicaId,
    pub origin_seq_nr: u64,
    pub local_seq_nr: u64,
    pub sys_time: HybridTime,
    pub vec_time: VTime,
    pub payload: Vec<u8>,
}

impl Event {
    pub fn new(
        origin: ReplicaId,
        origin_seq_nr: u64,
        local_seq_nr: u64,
        sys_time: HybridTime,
        vec_time: VTime,
        payload: Vec<u8>,
    ) -> (e: Event)
        ensures
            e.origin == origin,
            e.origin_seq_nr == origin_seq_nr,
            e.local_seq_nr == local_seq_nr,
            e.sys_time == sys_time,
            e.vec_time == vec_time,
            e.payload == payload,
    {
        Event { origin, origin_seq_nr, local_seq_nr, sys_time, vec_time, payload }
    }

    /// The operation with its stamps, once its payload has been decoded into `value`.
    pub fn into_versioned<T>(self, value: T) -> (v: Versioned<T>)
        ensures
            v.origin == self.origin,
            v.sys_time == self.sys_time,
            v.vec_time == self.vec_time,
            v.value == value,
    {
        Versioned { origin: self.origin, sys_time: self.sys_time, vec_time: self.vec_time, value }
    }
}

/// A value with the replica, hybrid time and vector time of the operation that produced it.
#[derive(Debug, Clone)]
pub struct Versioned<T> {
    pub origin: ReplicaId,
    pub sys_time: HybridTime,
    pub vec_time: VTime,
    pub value: T,
}

/// The total order of stamped operations: causal order first; for concurrent operations, the
/// hybrid time; then the origin replica.
pub open spec fn versioned_order<T>(a: Versioned<T>, b: Versioned<T>) -> core::cmp::Ordering {
    match clock_cmp(a.vec_time@, b.vec_time@) {
        Some(o) => o,
        None => if a.sys_time.0 < b.sys_time.0 {
            core::cmp::Ordering::Less
        } else if a.sys_time.0 > b.sys_time.0 {
            core::cmp::Ordering::Greater
        } else if a.origin < b.origin {
            core::cmp::Ordering::Less
        } else if a.origin > b.origin {
            core::cmp::Ordering::Greater
        } else {
            core::cmp::Ordering::Equal
        },
    }
}

impl<T> Versioned<T> {
    pub fn new(origin: ReplicaId, sys_time: HybridTime, vec_time: VTime, value: T) -> (v:
        Versioned<T>)
        ensures
            v.origin == origin,
            v.sys_time == sys_time,
            v.vec_time == vec_time,
            v.value == value,
    {
        Versioned { origin, sys_time, vec_time, value }
    }

    /// Compares two stamped operations by their total order.
    pub fn cmp(&self, other: &Versioned<T>) -> (r: core::cmp::Ordering)
        ensures
            r == versioned_order(*self, *other),
    {
        match self.vec_time.partial_cmp(&other.vec_time) {
            Some(o) => o,
            None => {
                if self.sys_time.0 < other.sys_time.0 {
                    core::cmp::Ordering::Less
                } else if self.sys_time.0 > other.sys_time.0 {
                    core::cmp::Ordering::Greater
                } else if self.origin < other.origin {
                    core::cmp::Ordering::Less
                } else if self.origin > other.origin {
                    core::cmp::Ordering::Greater
                } else {
                    core::cmp::Ordering::Equal
                }
            },
        }
    }
}

} // verus!
