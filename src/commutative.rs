//! Operation-based replicated types: causally delivered, stamped operations.
use vstd::prelude::*;
use crate::event::Versioned;
use crate::vtime::VTime;

verus! {

/// A type that applies causally delivered operations.
pub trait Commutative {
    type Operation;

    /// Whether the state already covers `v`.
    fn redundant(&self, v: Versioned<Self::Operation>) -> bool;

    /// Applies an operation that is not redundant; returns whether the state changed.
    fn apply(&mut self, v: Versioned<Self::Operation>) -> bool;

    /// Frees what operations at or before `timestamp` no longer need; returns whether
    /// anything was freed.
    fn prune(&mut self, timestamp: VTime) -> bool {
        false
    }
}

/// An operation-based counter.
#[derive(Debug, Clone, Copy)]
pub struct Counter(pub i64);

impl Counter {
    pub fn new() -> (c: Counter)
        ensures
            c.0 == 0,
    {
        Counter(0)
    }

    pub fn value(&self) -> (r: i64)
        ensures
            r == self.0,
    {
        self.0
    }
}

impl Default for Counter {
    fn default() -> (c: Self)
        ensures
            c.0 == 0,
    {
        Counter(0)
    }
}

/// An operation-based last-write-wins register.
#[derive(Debug)]
pub struct LWWRegister<T>(pub Option<Versioned<T>>);

impl<T> LWWRegister<T> {
    pub fn new() -> (r: LWWRegister<T>)
        ensures
            r.0 is None,
    {
        LWWRegister(None)
    }

    pub fn value(&self) -> (r: Option<&T>)
        ensures
            r == (match self.0 {
                Some(v) => Some(&v.value),
                None => None,
            }),
    {
        match &self.0 {
            Some(v) => Some(&v.value),
            None => None,
        }
    }
}

/// An operation-based multi-value register: every concurrent write stays.
#[derive(Debug)]
pub struct MVRegister<T>(pub Vec<Versioned<T>>);

impl<T> MVRegister<T> {
    pub fn new() -> (r: MVRegister<T>)
        ensures
            r.0@.len() == 0,
    {
        MVRegister(Vec::new())
    }

    /// The values of all writes held.
    pub fn value(&self) -> (r: Vec<&T>)
        ensures
            r@.len() == self.0@.len(),
            forall|i: int| 0 <= i < r@.len() ==> r@[i] == &self.0@[i].value,
    {
        let mut r: Vec<&T> = Vec::new();
        let mut i: usize = 0;
        while i < self.0.len()
            invariant
                i <= self.0@.len(),
                r@.len() == i,
                forall|j: int| 0 <= j < i ==> r@[j] == &self.0@[j].value,
            decreases self.0@.len() - i,
        {
            r.push(&self.0[i].value);
            i = i + 1;
        }
        r
    }
}

} // verus!
