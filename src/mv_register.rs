//! Multi-value register.
use vstd::prelude::*;
use crate::convergent::{Convergent, DeltaConvergent, ReplicaState};
use crate::dots::Key;
use crate::dotted_version::{dvv_compact, dvv_has, dvv_join};
use crate::keydots::dots_at;
use crate::kernel;
use crate::kernel::{
    Kernel, delta_inserted, delta_stripped, dropped_keys, dvv_gain, gained_keys, inserted_keys,
    kernel_merge, pending_delta, strips_some, loses_dots, all_dots,
};
use crate::vtime::{Dot, ReplicaId, clock_at, clock_wf};

verus! {

/// The changes of a multi-value register since its last hand-out.
pub type Delta<T> = kernel::Delta<T>;

/// A register that keeps every value written concurrently; a write replaces the values its
/// replica has seen.
#[derive(Debug)]
pub struct MVRegister<T: Key>(Kernel<T>);

impl<T: Key> View for MVRegister<T> {
    type V = <Kernel<T> as View>::V;

    closed spec fn view(&self) -> Self::V {
        self.0@
    }
}

impl<T: Key> MVRegister<T> {
    pub fn new() -> (s: MVRegister<T>)
        ensures
            s@.0.0 == Map::<ReplicaId, u64>::empty(),
            s@.0.1 == Set::<Dot>::empty(),
            s@.1 == Map::<T::V, Set<Dot>>::empty(),
            s@.2 is None,
    {
        MVRegister(Kernel::new())
    }

    /// Writes `value` as replica `id`: every value held so far is dropped, and `value` is
    /// held under a fresh dot.
    pub fn assign(&mut self, id: ReplicaId, value: T)
        requires
            clock_at(old(self)@.0.0, id) < u64::MAX,
        ensures
            forall|x: Dot|
                #[trigger] dvv_has(final(self)@.0, x) == (dvv_has(old(self)@.0, x) || (x.replica == id
                    && x.seq <= clock_at(old(self)@.0.0, id) + 1)),
            dvv_compact(final(self)@.0),
            clock_wf(final(self)@.0.0),
            final(self)@.1 == Map::<T::V, Set<Dot>>::empty().insert(
                value@,
                Set::<Dot>::empty().insert(
                    Dot { replica: id, seq: (clock_at(old(self)@.0.0, id) + 1) as u64 },
                ),
            ),
            final(self)@.2 == Some(
                (
                    pending_delta(old(self)@.2).0.insert(
                        value@,
                        dots_at(pending_delta(old(self)@.2).0, value@).insert(
                            Dot { replica: id, seq: (clock_at(old(self)@.0.0, id) + 1) as u64 },
                        ),
                    ),
                    pending_delta(old(self)@.2).1.union(all_dots(old(self)@.1)),
                ),
            ),
    {
        self.0.clear();
        self.0.insert(id, value);
    }

    pub fn is_empty(&self) -> (r: bool)
        ensures
            r == (self@.1.dom().len() == 0),
    {
        self.0.is_empty()
    }

    /// The values held, each once.
    pub fn value(&self) -> (r: Vec<T>)
        ensures
            r@.len() == self@.1.dom().len(),
            forall|i: int| 0 <= i < r@.len() ==> #[trigger] self@.1.contains_key(r@[i]@),
            forall|k: T::V| #[trigger]
                self@.1.contains_key(k) ==> exists|i: int| 0 <= i < r@.len() && r@[i]@ == k,
            forall|i: int, j: int| 0 <= i < j < r@.len() ==> r@[i]@ != r@[j]@,
    {
        self.0.value()
    }

    pub fn merge(&mut self, other: &MVRegister<T>) -> (r: bool)
        ensures
            final(self)@.1 == kernel_merge(old(self)@.1, old(self)@.0, other@.1, other@.0),
            forall|x: Dot|
                #[trigger] dvv_has(final(self)@.0, x) == (dvv_has(old(self)@.0, x) || dvv_has(
                    other@.0,
                    x,
                )),
            dvv_compact(final(self)@.0),
            clock_wf(final(self)@.0.0),
            final(self)@.0 == dvv_join(old(self)@.0, other@.0),
            final(self)@.2 == old(self)@.2,
            r == (gained_keys(old(self)@.1, old(self)@.0, other@.1) != Set::<T::V>::empty()
                || dropped_keys(old(self)@.1, old(self)@.0, other@.1, other@.0) != Set::<T::V>::empty()
                || loses_dots(old(self)@.1, other@.1, other@.0) || dvv_gain(old(self)@.0, other@.0)),
    {
        self.0.merge(&other.0)
    }

    /// Moves the pending changes out.
    pub fn delta(&mut self) -> (r: Option<Delta<T>>)
        ensures
            final(self)@.0 == old(self)@.0,
            final(self)@.1 == old(self)@.1,
            final(self)@.2 is None,
            r is Some <==> old(self)@.2 is Some,
            r is Some ==> Some(r->0@) == old(self)@.2,
    {
        self.0.delta()
    }

    pub fn merge_delta(&mut self, other: &Delta<T>) -> (r: bool)
        ensures
            final(self)@.1 == delta_stripped(
                delta_inserted(old(self)@.1, other@.0, old(self)@.0, other@.1),
                other@.1,
            ),
            final(self)@.0 == old(self)@.0,
            final(self)@.2 == old(self)@.2,
            r == (inserted_keys(old(self)@.1, other@.0, old(self)@.0, other@.1) != Set::<T::V>::empty()
                || strips_some(old(self)@.1, other@.1)),
    {
        self.0.merge_delta(other)
    }
}

impl<T: Key> Clone for MVRegister<T> {
    fn clone(&self) -> (r: Self)
        ensures
            r@ == self@,
    {
        MVRegister(self.0.clone())
    }
}

impl<T: Key> Default for MVRegister<T> {
    fn default() -> (r: Self)
        ensures
            r@.0.0 == Map::<ReplicaId, u64>::empty(),
            r@.0.1 == Set::<Dot>::empty(),
            r@.1 == Map::<T::V, Set<Dot>>::empty(),
            r@.2 is None,
    {
        MVRegister::new()
    }
}

impl<T: Key> Convergent for MVRegister<T> {
    open spec fn merged(this: Self::V, other: Self::V) -> Self::V {
        kernel::kernel_merged(this, other)
    }

    fn merge(&mut self, other: &Self) -> bool {
        MVRegister::merge(self, other)
    }
}

impl<T: Key> DeltaConvergent for MVRegister<T> {
    type Delta = Delta<T>;

    open spec fn delta_merged(this: Self::V, delta: (Map<T::V, Set<Dot>>, Set<Dot>)) -> Self::V {
        kernel::kernel_delta_merged(this, delta)
    }

    open spec fn pending(this: Self::V) -> Option<(Map<T::V, Set<Dot>>, Set<Dot>)> {
        this.2
    }

    open spec fn handed_out(this: Self::V) -> Self::V {
        (this.0, this.1, None)
    }

    fn delta(&mut self) -> Option<Delta<T>> {
        MVRegister::delta(self)
    }

    fn merge_delta(&mut self, other: &Delta<T>) -> bool {
        MVRegister::merge_delta(self, other)
    }
}

impl<T: Key> ReplicaState for MVRegister<T> {
    open spec fn initial() -> Self::V {
        ((Map::empty(), Set::empty()), Map::empty(), None)
    }

    fn initial_state() -> (r: Self) {
        MVRegister::new()
    }

    fn duplicate(&self) -> (r: Self) {
        self.clone()
    }
}

} // verus!
