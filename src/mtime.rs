//! Matrix clocks: one vector clock per replica.
use vstd::prelude::*;
use crate::convergent::Convergent;
use crate::vtime::{ReplicaId, VTime, clock_at, clock_gains, clock_join, clock_le, clock_wf};

verus! {

/// The row of replica `id`; an absent replica has the empty clock.
pub open spec fn row(m: Map<ReplicaId, Map<ReplicaId, u64>>, id: ReplicaId) -> Map<ReplicaId, u64> {
    if m.contains_key(id) {
        m[id]
    } else {
        Map::empty()
    }
}

/// A matrix clock: the vector clock each replica is known to have reached.
#[derive(Debug, Clone)]
pub struct MTime {
    ids: Vec<ReplicaId>,
    clocks: Vec<VTime>,
}

spec fn index_of(ids: Seq<ReplicaId>, id: ReplicaId) -> int {
    choose|i: int| 0 <= i < ids.len() && ids[i] == id
}

impl View for MTime {
    type V = Map<ReplicaId, Map<ReplicaId, u64>>;

    closed spec fn view(&self) -> Map<ReplicaId, Map<ReplicaId, u64>> {
        Map::new(
            |id: ReplicaId| exists|i: int| 0 <= i < self.ids@.len() && self.ids@[i] == id,
            |id: ReplicaId| self.clocks@[index_of(self.ids@, id)]@,
        )
    }
}

impl MTime {
    /// Each replica has one row.
    pub closed spec fn wf(&self) -> bool {
        &&& self.ids@.len() == self.clocks@.len()
        &&& forall|i: int, j: int| 0 <= i < j < self.ids@.len() ==> self.ids@[i] != self.ids@[j]
        &&& forall|i: int| 0 <= i < self.clocks@.len() ==> clock_wf(#[trigger] self.clocks@[i]@)
    }

    pub fn new() -> (m: MTime)
        ensures
            m.wf(),
            m@ == Map::<ReplicaId, Map<ReplicaId, u64>>::empty(),
    {
        let m = MTime { ids: Vec::new(), clocks: Vec::new() };
        proof {
            assert(m@ =~= Map::<ReplicaId, Map<ReplicaId, u64>>::empty());
        }
        m
    }

    fn find(&self, id: ReplicaId) -> (r: Option<usize>)
        requires
            self.wf(),
        ensures
            r is Some ==> r->0 < self.ids@.len() && self.ids@[r->0 as int] == id && self@.contains_key(id)
                && self@[id] == self.clocks@[r->0 as int]@,
            r is None ==> !self@.contains_key(id),
    {
        let mut i: usize = 0;
        while i < self.ids.len()
            invariant
                self.wf(),
                i <= self.ids@.len(),
                forall|j: int| 0 <= j < i ==> self.ids@[j] != id,
            decreases self.ids@.len() - i,
        {
            if self.ids[i] == id {
                proof {
                    assert(self@.contains_key(id));
                    let k = index_of(self.ids@, id);
                    assert(k == i);
                }
                return Some(i);
            }
            i = i + 1;
        }
        None
    }

    /// The row of replica `id`, if any.
    pub fn get(&self, id: &ReplicaId) -> (r: Option<&VTime>)
        requires
            self.wf(),
        ensures
            r is Some <==> self@.contains_key(*id),
            r is Some ==> r->0@ == self@[*id],
    {
        match self.find(*id) {
            Some(p) => Some(&self.clocks[p]),
            None => None,
        }
    }

    /// Sets the row of replica `id` to `time`; returns the row it replaces, if any.
    pub fn replace(&mut self, id: ReplicaId, time: VTime) -> (r: Option<VTime>)
        requires
            old(self).wf(),
            clock_wf(time@),
        ensures
            final(self).wf(),
            final(self)@ == old(self)@.insert(id, time@),
            r is Some <==> old(self)@.contains_key(id),
            r is Some ==> r->0@ == old(self)@[id],
    {
        let ghost tv = time@;
        match self.find(id) {
            Some(p) => {
                let ghost ids = self.ids@;
                let ghost c0 = self.clocks@;
                let mut t = time;
                core::mem::swap(&mut self.clocks[p], &mut t);
                proof {
                    assert(self.clocks@ == c0.update(p as int, self.clocks@[p as int]));
                    assert forall|x: ReplicaId| #[trigger] self@.contains_key(x) implies self@[x] == old(self)@.insert(id, tv)[x] by {
                        let k = index_of(ids, x);
                        if x != id {
                            assert(k != p);
                        } else {
                            assert(k == p);
                        }
                    }
                    assert(self@ =~= old(self)@.insert(id, tv));
                }
                Some(t)
            },
            None => {
                let ghost ids = self.ids@;
                self.ids.push(id);
                self.clocks.push(time);
                proof {
                    assert forall|x: ReplicaId| #[trigger] self@.contains_key(x) <==> old(self)@.insert(id, tv).contains_key(x) by {
                        if old(self)@.contains_key(x) {
                            let k = choose|k: int| 0 <= k < ids.len() && ids[k] == x;
                            assert(self.ids@[k] == x);
                        }
                        if x == id {
                            assert(self.ids@[ids.len() as int] == x);
                        }
                        if self@.contains_key(x) {
                            let k = choose|k: int| 0 <= k < self.ids@.len() && self.ids@[k] == x;
                            if k < ids.len() {
                                assert(ids[k] == x);
                            }
                        }
                    }
                    assert forall|x: ReplicaId| #[trigger] self@.contains_key(x) implies self@[x] == old(self)@.insert(id, tv)[x] by {
                        let k = index_of(self.ids@, x);
                        if x == id {
                            assert(k == ids.len());
                        } else {
                            let k0 = index_of(ids, x);
                            assert(self.ids@[k0] == x);
                        }
                    }
                    assert(self@ =~= old(self)@.insert(id, tv));
                }
                None
            },
        }
    }

    /// Raises the row of replica `id` to at least `time`; returns whether it grew.
    pub fn merge_vtime(&mut self, id: ReplicaId, time: &VTime) -> (r: bool)
        requires
            old(self).wf(),
        ensures
            final(self).wf(),
            r == clock_gains(row(old(self)@, id), time@),
            final(self)@ == old(self)@.insert(
                id,
                clock_join(
                    if old(self)@.contains_key(id) {
                        old(self)@[id]
                    } else {
                        Map::empty()
                    },
                    time@,
                ),
            ),
    {
        let cur = match self.find(id) {
            Some(p) => self.clocks[p].clone(),
            None => {
                let c = VTime::new();
                proof {
                    assert(row(self@, id) == c@);
                }
                c
            },
        };
        let mut next = cur;
        let r = next.merge(time);
        self.replace(id, next);
        r
    }

    /// The componentwise maximum of all rows.
    pub fn max(&self) -> (r: VTime)
        requires
            self.wf(),
        ensures
            forall|id: ReplicaId| #[trigger] self@.contains_key(id) ==> clock_le(self@[id], r@),
            forall|x: ReplicaId|
                clock_at(r@, x) > 0 ==> exists|id: ReplicaId|
                    self@.contains_key(id) && clock_at(self@[id], x) == clock_at(r@, x),
    {
        let mut acc = VTime::new();
        let mut i: usize = 0;
        while i < self.clocks.len()
            invariant
                self.wf(),
                i <= self.clocks@.len(),
                forall|j: int| 0 <= j < i ==> clock_le(#[trigger] self.clocks@[j]@, acc@),
                forall|x: ReplicaId|
                    clock_at(acc@, x) > 0 ==> exists|j: int|
                        0 <= j < i && clock_at(self.clocks@[j]@, x) == clock_at(acc@, x),
            decreases self.clocks@.len() - i,
        {
            let ghost a0 = acc@;
            acc.merge(&self.clocks[i]);
            proof {
                assert forall|x: ReplicaId| clock_at(acc@, x) > 0 implies exists|j: int|
                    0 <= j < i + 1 && clock_at(self.clocks@[j]@, x) == clock_at(acc@, x) by {
                    if clock_at(a0, x) >= clock_at(self.clocks@[i as int]@, x) {
                        let j = choose|j: int| 0 <= j < i && clock_at(self.clocks@[j]@, x) == clock_at(a0, x);
                    } else {
                        assert(clock_at(self.clocks@[i as int]@, x) == clock_at(acc@, x));
                    }
                }
            }
            i = i + 1;
        }
        proof {
            assert forall|id: ReplicaId| #[trigger] self@.contains_key(id) implies clock_le(self@[id], acc@) by {
                let k = index_of(self.ids@, id);
                assert(clock_le(self.clocks@[k]@, acc@));
            }
            assert forall|x: ReplicaId| clock_at(acc@, x) > 0 implies exists|id: ReplicaId|
                self@.contains_key(id) && clock_at(self@[id], x) == clock_at(acc@, x) by {
                let j = choose|j: int| 0 <= j < self.clocks@.len() && clock_at(self.clocks@[j]@, x) == clock_at(acc@, x);
                let id = self.ids@[j];
                assert(self@.contains_key(id));
                assert(index_of(self.ids@, id) == j);
            }
        }
        acc
    }

    /// The componentwise minimum of all rows; the empty clock when there are none.
    pub fn min(&self) -> (r: VTime)
        requires
            self.wf(),
        ensures
            forall|id: ReplicaId| #[trigger] self@.contains_key(id) ==> clock_le(r@, self@[id]),
            self@.dom() == Set::<ReplicaId>::empty() ==> r@ == Map::<ReplicaId, u64>::empty(),
            forall|x: ReplicaId|
                self@.dom() != Set::<ReplicaId>::empty() ==> exists|id: ReplicaId|
                    self@.contains_key(id) && clock_at(self@[id], x) == #[trigger] clock_at(r@, x),
    {
        if self.clocks.len() == 0 {
            proof {
                assert(self@ =~= Map::<ReplicaId, Map<ReplicaId, u64>>::empty());
                assert(self@.dom() =~= Set::<ReplicaId>::empty());
            }
            return VTime::new();
        }
        let mut acc = self.clocks[0].clone();
        let mut i: usize = 1;
        while i < self.clocks.len()
            invariant
                self.wf(),
                1 <= i <= self.clocks@.len(),
                forall|j: int| 0 <= j < i ==> clock_le(acc@, #[trigger] self.clocks@[j]@),
                forall|x: ReplicaId|
                    exists|j: int| 0 <= j < i && clock_at(self.clocks@[j]@, x) == #[trigger] clock_at(acc@, x),
            decreases self.clocks@.len() - i,
        {
            let ghost a0 = acc@;
            acc = acc.min(&self.clocks[i]);
            proof {
                assert forall|x: ReplicaId| exists|j: int|
                    0 <= j < i + 1 && clock_at(self.clocks@[j]@, x) == #[trigger] clock_at(acc@, x) by {
                    if clock_at(a0, x) <= clock_at(self.clocks@[i as int]@, x) {
                        let j = choose|j: int| 0 <= j < i && clock_at(self.clocks@[j]@, x) == clock_at(a0, x);
                    } else {
                        assert(clock_at(self.clocks@[i as int]@, x) == clock_at(acc@, x));
                    }
                }
                assert forall|j: int| 0 <= j < i + 1 implies clock_le(acc@, #[trigger] self.clocks@[j]@) by {
                    if j < i {
                        assert(clock_le(a0, self.clocks@[j]@));
                    }
                }
            }
            i = i + 1;
        }
        proof {
            assert(self@.contains_key(self.ids@[0]));
            assert(self@.dom().contains(self.ids@[0]));
            assert forall|id: ReplicaId| #[trigger] self@.contains_key(id) implies clock_le(acc@, self@[id]) by {
                let k = index_of(self.ids@, id);
                assert(clock_le(acc@, self.clocks@[k]@));
            }
            assert forall|x: ReplicaId| self@.dom() != Set::<ReplicaId>::empty() implies exists|id: ReplicaId|
                self@.contains_key(id) && clock_at(self@[id], x) == #[trigger] clock_at(acc@, x) by {
                let j = choose|j: int| 0 <= j < self.clocks@.len() && clock_at(self.clocks@[j]@, x) == clock_at(acc@, x);
                let id = self.ids@[j];
                assert(self@.contains_key(id));
                assert(index_of(self.ids@, id) == j);
            }
        }
        acc
    }

    /// Raises every row to at least the matching row of `other`; returns whether any grew.
    pub fn merge(&mut self, other: &MTime) -> (r: bool)
        requires
            old(self).wf(),
            other.wf(),
        ensures
            final(self).wf(),
            r == exists|id: ReplicaId|
                other@.contains_key(id) && clock_gains(row(old(self)@, id), #[trigger] other@[id]),
            final(self)@ == Map::new(
                |id: ReplicaId| old(self)@.contains_key(id) || other@.contains_key(id),
                |id: ReplicaId| clock_join(row(old(self)@, id), row(other@, id)),
            ),
    {
        let mut changed = false;
        let mut i: usize = 0;
        let ghost s0 = self@;
        proof {
            assert forall|q: ReplicaId| #[trigger] s0.contains_key(q) implies clock_wf(s0[q]) by {
                let k = index_of(self.ids@, q);
                assert(clock_wf(self.clocks@[k]@));
            }
            assert forall|id: ReplicaId| #[trigger] s0.contains_key(id) implies clock_join(row(s0, id), Map::empty()) =~= s0[id] by {
                let k = index_of(self.ids@, id);
                assert(clock_wf(self.clocks@[k]@));
            }
            assert(self@ =~= Map::new(
                |id: ReplicaId| s0.contains_key(id) || exists|j: int| 0 <= j < 0 && other.ids@[j] == id,
                |id: ReplicaId| clock_join(row(s0, id), if exists|j: int| 0 <= j < 0 && other.ids@[j] == id { other@[id] } else { Map::empty() }),
            ));
        }
        while i < other.ids.len()
            invariant
                self.wf(),
                other.wf(),
                i <= other.ids@.len(),
                forall|q: ReplicaId| #[trigger] s0.contains_key(q) ==> clock_wf(s0[q]),
                changed == exists|j: int| 0 <= j < i && clock_gains(row(s0, other.ids@[j]), #[trigger] other.clocks@[j]@),
                self@ == Map::new(
                    |id: ReplicaId| s0.contains_key(id) || exists|j: int| 0 <= j < i && other.ids@[j] == id,
                    |id: ReplicaId| clock_join(row(s0, id), if exists|j: int| 0 <= j < i && other.ids@[j] == id { other@[id] } else { Map::empty() }),
                ),
            decreases other.ids@.len() - i,
        {
            let id = other.ids[i];
            let ghost m0 = self@;
            let c = self.merge_vtime(id, &other.clocks[i]);
            changed = changed || c;
            proof {
                assert(!exists|j: int| 0 <= j < i && other.ids@[j] == id);
                assert(row(m0, id) =~= row(s0, id)) by {
                    if s0.contains_key(id) {
                        assert(m0[id] == clock_join(row(s0, id), Map::empty()));
                        assert(clock_join(row(s0, id), Map::empty()) =~= row(s0, id)) by {
                            assert(clock_wf(row(s0, id)));
                        }
                    }
                }
                assert(other@.contains_key(id));
                assert(index_of(other.ids@, id) == i);
                assert(other@[id] == other.clocks@[i as int]@);
                let target = Map::new(
                    |q: ReplicaId| s0.contains_key(q) || exists|j: int| 0 <= j < i + 1 && other.ids@[j] == q,
                    |q: ReplicaId| clock_join(row(s0, q), if exists|j: int| 0 <= j < i + 1 && other.ids@[j] == q { other@[q] } else { Map::empty() }),
                );
                assert(!exists|j: int| 0 <= j < i && other.ids@[j] == id);
                assert(clock_join(row(m0, id), other@[id]) =~= target[id]) by {
                    assert(exists|j: int| 0 <= j < i + 1 && other.ids@[j] == id);
                }
                assert forall|q: ReplicaId| #[trigger] self@.contains_key(q) <==> target.contains_key(q) by {
                    if q == id {
                        assert(other.ids@[i as int] == q);
                    }
                }
                assert forall|q: ReplicaId| #[trigger] self@.contains_key(q) && q != id implies self@[q] == target[q] by {
                    if exists|j: int| 0 <= j < i + 1 && other.ids@[j] == q {
                        let j = choose|j: int| 0 <= j < i + 1 && other.ids@[j] == q;
                        assert(j != i);
                    }
                }
                assert(self@ =~= target);
            }
            i = i + 1;
        }
        proof {
            assert forall|id: ReplicaId| #[trigger] other@.contains_key(id) implies exists|j: int| 0 <= j < other.ids@.len() && other.ids@[j] == id by {}
            if changed {
                let j = choose|j: int| 0 <= j < other.ids@.len() && clock_gains(row(s0, other.ids@[j]), #[trigger] other.clocks@[j]@);
                let id = other.ids@[j];
                assert(other@.contains_key(id));
                assert(index_of(other.ids@, id) == j);
                assert(other@[id] == other.clocks@[j]@);
                assert(other@.contains_key(id) && clock_gains(row(s0, id), other@[id]));
            }
            if exists|id: ReplicaId| other@.contains_key(id) && clock_gains(row(s0, id), #[trigger] other@[id]) {
                let id = choose|id: ReplicaId| other@.contains_key(id) && clock_gains(row(s0, id), #[trigger] other@[id]);
                let j = index_of(other.ids@, id);
                assert(0 <= j < other.ids@.len() && other.ids@[j] == id);
                assert(clock_gains(row(s0, other.ids@[j]), other.clocks@[j]@));
                assert(changed);
            }
            assert forall|id: ReplicaId| self@.contains_key(id) implies #[trigger] self@[id] == clock_join(row(s0, id), row(other@, id)) by {}
            assert(self@ =~= Map::new(
                |id: ReplicaId| s0.contains_key(id) || other@.contains_key(id),
                |id: ReplicaId| clock_join(row(s0, id), row(other@, id)),
            ));
        }
        changed
    }
}

} // verus!
