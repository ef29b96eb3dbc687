//! The contracts shared by state-based replicated types.
use vstd::prelude::*;

verus! {

/// A join-semilattice: `merge` folds another replica's state into this one and returns whether
/// this state changed. `merged` says what the state becomes.
pub trait Convergent: View + Sized {
    /// The state after merging `other` into `this`.
    spec fn merged(this: Self::V, other: Self::V) -> Self::V;

    fn merge(&mut self, other: &Self) -> (r: bool)
        ensures
            final(self)@ == Self::merged(old(self)@, other@),
    ;
}

/// A replicated state with a starting point: a fresh replica, and copies of a replica.
pub trait ReplicaState: View + Sized {
    /// The state of a fresh replica.
    spec fn initial() -> Self::V;

    /// A fresh replica.
    fn initial_state() -> (r: Self)
        ensures
            r@ == Self::initial(),
    ;

    /// A copy of this replica.
    fn duplicate(&self) -> (r: Self)
        ensures
            r@ == self@,
    ;
}

/// A state that also hands out, and folds in, the changes made since the last hand-out.
pub trait DeltaConvergent: View + Sized {
    type Delta: View;

    /// The state after folding `delta` into `this`.
    spec fn delta_merged(this: Self::V, delta: <Self::Delta as View>::V) -> Self::V;

    /// The changes a hand-out moves out of state `this`, if there are any.
    spec fn pending(this: Self::V) -> Option<<Self::Delta as View>::V>;

    /// The state a hand-out leaves.
    spec fn handed_out(this: Self::V) -> Self::V;

    /// Moves the accumulated changes out.
    fn delta(&mut self) -> (r: Option<Self::Delta>)
        ensures
            final(self)@ == Self::handed_out(old(self)@),
            match r {
                Some(d) => Self::pending(old(self)@) == Some(d@),
                None => Self::pending(old(self)@) is None,
            },
    ;

    fn merge_delta(&mut self, other: &Self::Delta) -> (r: bool)
        ensures
            final(self)@ == Self::delta_merged(old(self)@, other@),
    ;
}

/// Merges optional states: nothing merged with a state is that state, and two states merge.
pub fn merge_option<T: Convergent + Copy>(this: &mut Option<T>, other: &Option<T>) -> (r: bool)
    ensures
        *other is None ==> *final(this) == *old(this) && !r,
        *other is Some && *old(this) is None ==> *final(this) == *other && r,
        *other is Some && *old(this) is Some ==> *final(this) is Some && (*final(this))->0@ == T::merged(
            (*old(this))->0@,
            (*other)->0@,
        ),
{
    match other {
        Some(v2) => {
            match this {
                Some(v1) => v1.merge(v2),
                None => {
                    *this = Some(*v2);
                    true
                },
            }
        },
        None => false,
    }
}

} // verus!
