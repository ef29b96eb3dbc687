//! Observed-remove map whose values are themselves replicated types.
use vstd::prelude::*;
use crate::convergent::{Convergent, DeltaConvergent, ReplicaState};
use crate::dots::Key;
use crate::dotted_version::{dvv_compact, dvv_has};
use crate::keydots::dots_at;
use crate::kernel;
use crate::kernel::{
    Kernel, MergeOp, delta_inserted, delta_stripped, dropped_keys, dvv_gain, emptied_keys,
    gained_keys, inserted_keys, kernel_merge, loses_dots, op_key, pending_delta, removed_keys,
    reported_once, strips_some,
    updated_keys, updates_first,
};
use crate::vtime::{Dot, ReplicaId, clock_at};

verus! {

/// The keys that a list holds.
pub open spec fn keys_of<K: View>(s: Seq<K>) -> Set<K::V> {
    Set::new(|k: K::V| exists|i: int| 0 <= i < s.len() && s[i]@ == k)
}

/// Whether no key is held twice.
pub open spec fn unique_keys<K: View>(s: Seq<K>) -> bool {
    forall|i: int, j: int| 0 <= i < j < s.len() ==> s[i]@ != s[j]@
}

/// The position of key `k` in `s`.
pub open spec fn key_index<K: View>(s: Seq<K>, k: K::V) -> int {
    choose|i: int| 0 <= i < s.len() && s[i]@ == k
}

/// The value of each key of the parallel lists `ks` and `vs`.
pub open spec fn values_of<K: View, V: View>(ks: Seq<K>, vs: Seq<V>) -> Map<K::V, V::V> {
    Map::new(|k: K::V| keys_of(ks).contains(k), |k: K::V| vs[key_index(ks, k)]@)
}

proof fn lemma_key_index<K: View>(s: Seq<K>, p: int)
    requires
        unique_keys(s),
        0 <= p < s.len(),
    ensures
        key_index(s, s[p]@) == p,
        keys_of(s).contains(s[p]@),
{
    assert(keys_of(s).contains(s[p]@));
}

/// Whether `now` is the value a merge of `theirs` leaves: merged into the value `before` held,
/// or into a fresh replica's state when there was none.
pub open spec fn value_merged<V: Convergent + ReplicaState>(
    now: V::V,
    before: Option<V::V>,
    theirs: V::V,
) -> bool {
    now == V::merged(
        match before {
            Some(b) => b,
            None => V::initial(),
        },
        theirs,
    )
}

proof fn lemma_values_update<K: View, V: View>(ks: Seq<K>, vs: Seq<V>, p: int, x: V)
    requires
        unique_keys(ks),
        ks.len() == vs.len(),
        0 <= p < ks.len(),
    ensures
        values_of(ks, vs.update(p, x)) == values_of(ks, vs).insert(ks[p]@, x@),
{
    lemma_key_index(ks, p);
    assert forall|q: K::V| #[trigger] values_of(ks, vs.update(p, x)).contains_key(q) implies values_of(ks, vs.update(p, x))[q] == values_of(ks, vs).insert(ks[p]@, x@)[q] by {
        let i = key_index(ks, q);
        lemma_key_index(ks, i);
    }
    assert(values_of(ks, vs.update(p, x)) =~= values_of(ks, vs).insert(ks[p]@, x@));
}

proof fn lemma_first_report<K: View>(ev: Seq<MergeOp<K>>, i: int)
    requires
        reported_once(ev),
        0 <= i < ev.len(),
    ensures
        !updated_keys(ev.subrange(0, i)).contains(op_key(ev[i])@),
        !removed_keys(ev.subrange(0, i)).contains(op_key(ev[i])@),
{
    let pre = ev.subrange(0, i);
    let k = op_key(ev[i])@;
    if updated_keys(pre).contains(k) {
        let j = choose|j: int| 0 <= j < pre.len() && kernel::reports_update(pre[j], k);
        assert(pre[j] == ev[j]);
        assert(op_key(ev[j])@ == k);
    }
    if removed_keys(pre).contains(k) {
        let j = choose|j: int| 0 <= j < pre.len() && kernel::reports_removal(pre[j], k);
        assert(pre[j] == ev[j]);
        assert(op_key(ev[j])@ == k);
    }
}

/// Whether `now` is the value folding in the change `change` leaves: folded into the value
/// `before` held, or into a fresh replica's state when there was none.
pub open spec fn value_delta_merged<V: DeltaConvergent + ReplicaState>(
    now: V::V,
    before: Option<V::V>,
    change: <V::Delta as View>::V,
) -> bool {
    now == V::delta_merged(
        match before {
            Some(b) => b,
            None => V::initial(),
        },
        change,
    )
}

/// Position of the first value filed under `k`, if any.
fn find_value<K: Key>(s: &Vec<K>, k: &K) -> (r: Option<usize>)
    ensures
        r is Some ==> r->0 < s@.len() && s@[r->0 as int]@ == k@,
        r is None ==> !keys_of(s@).contains(k@),
{
    let mut i: usize = 0;
    while i < s.len()
        invariant
            i <= s@.len(),
            forall|j: int| 0 <= j < i ==> s@[j]@ != k@,
        decreases s@.len() - i,
    {
        if s[i].same(k) {
            return Some(i);
        }
        i = i + 1;
    }
    None
}

/// Takes key `k`, with its value, out of the parallel lists `ks` and `vs`; returns the value,
/// if any.
fn take_value<K: Key, V: View>(ks: &mut Vec<K>, vs: &mut Vec<V>, k: &K) -> (r: Option<V>)
    requires
        old(ks)@.len() == old(vs)@.len(),
        unique_keys(old(ks)@),
    ensures
        final(ks)@.len() == final(vs)@.len(),
        unique_keys(final(ks)@),
        keys_of(final(ks)@) == keys_of(old(ks)@).remove(k@),
        values_of(final(ks)@, final(vs)@) == values_of(old(ks)@, old(vs)@).remove(k@),
        r is Some <==> keys_of(old(ks)@).contains(k@),
        r is Some ==> r->0@ == values_of(old(ks)@, old(vs)@)[k@],
{
    let ghost ks0 = ks@;
    let ghost vs0 = vs@;
    match find_value(ks, k) {
        None => {
            proof {
                assert(keys_of(ks0).remove(k@) =~= keys_of(ks0));
                assert(values_of(ks0, vs0).remove(k@) =~= values_of(ks0, vs0));
            }
            None
        },
        Some(p) => {
            proof {
                lemma_key_index(ks0, p as int);
            }
            ks.remove(p);
            let v = vs.remove(p);
            proof {
                let t = ks@;
                assert forall|i: int, j: int| 0 <= i < j < t.len() implies t[i]@ != t[j]@ by {
                    let a = if i < p { i } else { i + 1 };
                    let b = if j < p { j } else { j + 1 };
                    assert(t[i] == ks0[a]);
                    assert(t[j] == ks0[b]);
                }
                assert forall|q: K::V| #[trigger] keys_of(t).contains(q) <==> keys_of(ks0).remove(k@).contains(q) by {
                    if keys_of(t).contains(q) {
                        let i = choose|i: int| 0 <= i < t.len() && t[i]@ == q;
                        let a = if i < p { i } else { i + 1 };
                        assert(t[i] == ks0[a]);
                    }
                    if keys_of(ks0).remove(k@).contains(q) {
                        let i = choose|i: int| 0 <= i < ks0.len() && ks0[i]@ == q;
                        assert(i != p);
                        if i < p {
                            assert(t[i] == ks0[i]);
                        } else {
                            assert(t[i - 1] == ks0[i]);
                        }
                    }
                }
                assert(keys_of(t) =~= keys_of(ks0).remove(k@));
                assert forall|q: K::V| #[trigger] keys_of(t).contains(q) implies values_of(t, vs@)[q] == values_of(ks0, vs0)[q] by {
                    let i = key_index(t, q);
                    lemma_key_index(t, i);
                    let a = if i < p { i } else { i + 1 };
                    assert(t[i] == ks0[a]);
                    lemma_key_index(ks0, a);
                    assert(vs@[i] == vs0[a]);
                }
                assert(values_of(t, vs@) =~= values_of(ks0, vs0).remove(k@));
            }
            Some(v)
        },
    }
}

/// Appends `k` to `ks`, with `v` to `vs`.
fn push_value<K: Key, V: View>(ks: &mut Vec<K>, vs: &mut Vec<V>, k: K, v: V)
    requires
        old(ks)@.len() == old(vs)@.len(),
        unique_keys(old(ks)@),
        !keys_of(old(ks)@).contains(k@),
    ensures
        final(ks)@ == old(ks)@.push(k),
        final(vs)@ == old(vs)@.push(v),
        final(vs)@.len() == final(ks)@.len(),
        unique_keys(final(ks)@),
        keys_of(final(ks)@) == keys_of(old(ks)@).insert(k@),
        values_of(final(ks)@, final(vs)@) == values_of(old(ks)@, old(vs)@).insert(k@, v@),
{
    let ghost vs0 = vs@;
    let ghost s0 = ks@;
    ks.push(k);
    vs.push(v);
    proof {
        assert forall|q: K::V| #[trigger] keys_of(ks@).contains(q) <==> keys_of(s0).insert(k@).contains(q) by {
            if keys_of(s0).contains(q) {
                let j = choose|j: int| 0 <= j < s0.len() && s0[j]@ == q;
                assert(ks@[j] == s0[j]);
            }
            if q == k@ {
                assert(ks@[s0.len() as int] == k);
            }
            if keys_of(ks@).contains(q) {
                let j = choose|j: int| 0 <= j < ks@.len() && ks@[j]@ == q;
                if j < s0.len() {
                    assert(s0[j] == ks@[j]);
                }
            }
        }
        assert(keys_of(ks@) =~= keys_of(s0).insert(k@));
        assert forall|i: int, j: int| 0 <= i < j < ks@.len() implies ks@[i]@ != ks@[j]@ by {
            if j == s0.len() {
                assert(keys_of(s0).contains(s0[i]@));
            } else {
                assert(ks@[i] == s0[i]);
                assert(ks@[j] == s0[j]);
            }
        }
        let n = s0.len() as int;
        lemma_key_index(ks@, n);
        assert forall|q: K::V| #[trigger] keys_of(ks@).contains(q) implies values_of(ks@, vs@)[q] == values_of(s0, vs0).insert(k@, v@)[q] by {
            if q != k@ {
                let i = key_index(s0, q);
                lemma_key_index(s0, i);
                assert(ks@[i] == s0[i]);
                lemma_key_index(ks@, i);
            }
        }
        assert(values_of(ks@, vs@) =~= values_of(s0, vs0).insert(k@, v@));
    }
}

/// The keys after folding in merge reports `ev`: an updated key that `from` holds a value for
/// is added, a removed key goes.
pub open spec fn keys_after<K: View>(keys: Set<K::V>, ev: Seq<MergeOp<K>>, from: Set<K::V>) -> Set<K::V> {
    keys.union(updated_keys(ev).intersect(from)).difference(removed_keys(ev))
}

proof fn lemma_keys_step<K: View>(keys: Set<K::V>, ev: Seq<MergeOp<K>>, from: Set<K::V>, i: int)
    requires
        0 <= i < ev.len(),
        updates_first(ev),
    ensures
        keys_after(keys, ev.subrange(0, i + 1), from) == (match ev[i] {
            MergeOp::Updated(k) => if from.contains(k@) {
                keys_after(keys, ev.subrange(0, i), from).insert(k@)
            } else {
                keys_after(keys, ev.subrange(0, i), from)
            },
            MergeOp::Removed(k) => keys_after(keys, ev.subrange(0, i), from).remove(k@),
        }),
{
    let pre = ev.subrange(0, i);
    let post = ev.subrange(0, i + 1);
    assert(post =~= pre.push(ev[i]));
    match ev[i] {
        MergeOp::Updated(k) => {
            kernel::lemma_push_update(pre, k);
            assert(removed_keys(pre) =~= Set::<K::V>::empty()) by {
                assert forall|q: K::V| !#[trigger] removed_keys(pre).contains(q) by {
                    if removed_keys(pre).contains(q) {
                        let j = choose|j: int| 0 <= j < pre.len() && kernel::reports_removal(pre[j], q);
                        assert(ev[j] is Removed);
                    }
                }
            }
            assert(keys_after(keys, post, from) =~= if from.contains(k@) {
                keys_after(keys, pre, from).insert(k@)
            } else {
                keys_after(keys, pre, from)
            });
        },
        MergeOp::Removed(k) => {
            kernel::lemma_push_removal(pre, k);
            assert(keys_after(keys, post, from) =~= keys_after(keys, pre, from).remove(k@));
        },
    }
}

/// An observed-remove map: keys follow observed-remove semantics, and the values of a key
/// edited concurrently at several replicas are merged.
#[derive(Debug)]
pub struct ORMap<K: Key, V> {
    kernel: Kernel<K>,
    keys: Vec<K>,
    vals: Vec<V>,
}

impl<K: Key, V> View for ORMap<K, V> {
    /// The kernel of the keys, and the keys that hold a value.
    type V = (<Kernel<K> as View>::V, Set<K::V>);

    closed spec fn view(&self) -> Self::V {
        (self.kernel@, keys_of(self.keys@))
    }
}

impl<K: Key, V: View> ORMap<K, V> {
    /// The key list and the value list run in parallel.
    pub closed spec fn wf(&self) -> bool {
        self.keys@.len() == self.vals@.len() && unique_keys(self.keys@)
    }

    /// The value of each key that holds one.
    pub closed spec fn values(&self) -> Map<K::V, V::V> {
        values_of(self.keys@, self.vals@)
    }

    pub fn new() -> (m: ORMap<K, V>)
        ensures
            m@.0.0.0 == Map::<ReplicaId, u64>::empty(),
            m@.0.0.1 == Set::<Dot>::empty(),
            m@.0.1 == Map::<K::V, Set<Dot>>::empty(),
            m@.0.2 is None,
            m@.1 == Set::<K::V>::empty(),
            m.wf(),
    {
        let m = ORMap { kernel: Kernel::new(), keys: Vec::new(), vals: Vec::new() };
        proof {
            assert(keys_of(m.keys@) =~= Set::<K::V>::empty());
        }
        m
    }

    /// Registers an edit of `key` by replica `id` under a fresh dot, and returns its value,
    /// inserting `default` when there is none.
    pub fn or_insert(&mut self, key: K, id: ReplicaId, default: V) -> (r: &mut V)
        requires
            old(self).wf(),
            clock_at(old(self)@.0.0.0, id) < u64::MAX,
        ensures
            final(self)@.0.1 == old(self)@.0.1.insert(
                key@,
                dots_at(old(self)@.0.1, key@).insert(
                    Dot { replica: id, seq: (clock_at(old(self)@.0.0.0, id) + 1) as u64 },
                ),
            ),
            forall|x: Dot|
                #[trigger] dvv_has(final(self)@.0.0, x) == (dvv_has(old(self)@.0.0, x) || (x.replica
                    == id && x.seq <= clock_at(old(self)@.0.0.0, id) + 1)),
            final(self)@.1 == old(self)@.1.insert(key@),
            final(self).wf(),
            r@ == (if old(self)@.1.contains(key@) {
                old(self).values()[key@]
            } else {
                default@
            }),
            final(self).values() == old(self).values().insert(key@, final(r)@),
    {
        self.kernel.insert(id, key);
        let p = match find_value(&self.keys, &key) {
            Some(p) => {
                proof {
                    assert(keys_of(self.keys@) =~= keys_of(self.keys@).insert(key@));
                    lemma_key_index(self.keys@, p as int);
                }
                p
            },
            None => {
                push_value(&mut self.keys, &mut self.vals, key, default);
                self.keys.len() - 1
            },
        };
        let ghost vm = self.vals@;
        proof {
            lemma_key_index(self.keys@, p as int);
        }
        let r = &mut self.vals[p];
        proof {
            lemma_values_update(self.keys@, vm, p as int, *final(r));
        }
        r
    }

    /// Drops `key` and its value; its dots join the pending removals.
    pub fn remove(&mut self, key: &K) -> (r: Option<V>)
        requires
            old(self).wf(),
        ensures
            final(self)@.0.0 == old(self)@.0.0,
            final(self)@.0.1 == old(self)@.0.1.remove(key@),
            final(self)@.0.2 == Some(
                (
                    pending_delta(old(self)@.0.2).0,
                    pending_delta(old(self)@.0.2).1.union(dots_at(old(self)@.0.1, key@)),
                ),
            ),
            final(self)@.1 == old(self)@.1.remove(key@),
            r is Some <==> old(self)@.1.contains(key@),
            r is Some ==> r->0@ == old(self).values()[key@],
            final(self).values() == old(self).values().remove(key@),
            final(self).wf(),
    {
        self.kernel.remove(key);
        take_value(&mut self.keys, &mut self.vals, key)
    }

    /// Whether no key holds a value.
    pub fn is_empty(&self) -> (r: bool)
        ensures
            r == (self@.1 == Set::<K::V>::empty()),
    {
        proof {
            if self.keys@.len() > 0 {
                assert(keys_of(self.keys@).contains(self.keys@[0]@));
            } else {
                assert(keys_of(self.keys@) =~= Set::<K::V>::empty());
            }
        }
        self.keys.len() == 0
    }

    /// The number of live keys.
    pub fn len(&self) -> (r: usize)
        ensures
            r == self@.0.1.dom().len(),
    {
        self.kernel.len()
    }

    /// The value of `key`, if it holds one.
    pub fn get(&self, key: &K) -> (r: Option<&V>)
        requires
            self.wf(),
        ensures
            r is Some <==> self@.1.contains(key@),
            r is Some ==> r->0@ == self.values()[key@],
    {
        match find_value(&self.keys, key) {
            Some(p) => {
                proof {
                    lemma_key_index(self.keys@, p as int);
                }
                Some(&self.vals[p])
            },
            None => None,
        }
    }

    /// Every key with its value.
    pub fn value(&self) -> (r: Vec<(K, &V)>)
        requires
            self.wf(),
        ensures
            keys_of(r@.map_values(|e: (K, &V)| e.0)) == self@.1,
            forall|i: int| 0 <= i < r@.len() ==> #[trigger] r@[i].1@ == self.values()[r@[i].0@],
    {
        let mut r: Vec<(K, &V)> = Vec::new();
        let mut i: usize = 0;
        while i < self.keys.len()
            invariant
                self.wf(),
                i <= self.keys@.len(),
                r@.len() == i,
                forall|j: int| 0 <= j < i ==> #[trigger] r@[j].0 == self.keys@[j],
                forall|j: int| 0 <= j < i ==> #[trigger] r@[j].1 == &self.vals@[j],
            decreases self.keys@.len() - i,
        {
            r.push((self.keys[i], &self.vals[i]));
            i = i + 1;
        }
        proof {
            let rk = r@.map_values(|e: (K, &V)| e.0);
            assert(rk =~= self.keys@);
            assert forall|i: int| 0 <= i < r@.len() implies #[trigger] r@[i].1@ == self.values()[r@[i].0@] by {
                lemma_key_index(self.keys@, i);
            }
        }
        r
    }
}

impl<K: Key, V: View> ORMap<K, V> {
    /// Registers an edit of `key` by replica `id` under a fresh dot, and returns its value,
    /// made by `default` when there is none.
    pub fn or_insert_with<F: FnOnce() -> V>(&mut self, key: K, id: ReplicaId, default: F) -> (r:
        &mut V)
        requires
            old(self).wf(),
            clock_at(old(self)@.0.0.0, id) < u64::MAX,
            default.requires(()),
        ensures
            final(self)@.0.1 == old(self)@.0.1.insert(
                key@,
                dots_at(old(self)@.0.1, key@).insert(
                    Dot { replica: id, seq: (clock_at(old(self)@.0.0.0, id) + 1) as u64 },
                ),
            ),
            forall|x: Dot|
                #[trigger] dvv_has(final(self)@.0.0, x) == (dvv_has(old(self)@.0.0, x) || (x.replica
                    == id && x.seq <= clock_at(old(self)@.0.0.0, id) + 1)),
            final(self)@.1 == old(self)@.1.insert(key@),
            final(self).wf(),
            old(self)@.1.contains(key@) ==> r@ == old(self).values()[key@],
            !old(self)@.1.contains(key@) ==> exists|v: V| default.ensures((), v) && r@ == v@,
            final(self).values() == old(self).values().insert(key@, final(r)@),
    {
        self.kernel.insert(id, key);
        let p = match find_value(&self.keys, &key) {
            Some(p) => {
                proof {
                    assert(keys_of(self.keys@) =~= keys_of(self.keys@).insert(key@));
                    lemma_key_index(self.keys@, p as int);
                }
                p
            },
            None => {
                let v = default();
                push_value(&mut self.keys, &mut self.vals, key, v);
                proof {
                    lemma_key_index(self.keys@, self.keys@.len() - 1);
                }
                self.keys.len() - 1
            },
        };
        let ghost vm = self.vals@;
        proof {
            lemma_key_index(self.keys@, p as int);
        }
        let r = &mut self.vals[p];
        proof {
            lemma_values_update(self.keys@, vm, p as int, *final(r));
        }
        r
    }

    /// Registers an edit of `key` by replica `id` under a fresh dot, and returns its value,
    /// made by `default` from the key when there is none.
    pub fn or_insert_with_key<F: FnOnce(&K) -> V>(&mut self, key: K, id: ReplicaId, default: F) -> (r:
        &mut V)
        requires
            old(self).wf(),
            clock_at(old(self)@.0.0.0, id) < u64::MAX,
            forall|q: &K| default.requires((q,)),
        ensures
            final(self)@.0.1 == old(self)@.0.1.insert(
                key@,
                dots_at(old(self)@.0.1, key@).insert(
                    Dot { replica: id, seq: (clock_at(old(self)@.0.0.0, id) + 1) as u64 },
                ),
            ),
            forall|x: Dot|
                #[trigger] dvv_has(final(self)@.0.0, x) == (dvv_has(old(self)@.0.0, x) || (x.replica
                    == id && x.seq <= clock_at(old(self)@.0.0.0, id) + 1)),
            final(self)@.1 == old(self)@.1.insert(key@),
            final(self).wf(),
            old(self)@.1.contains(key@) ==> r@ == old(self).values()[key@],
            !old(self)@.1.contains(key@) ==> exists|v: V| default.ensures((&key,), v) && r@ == v@,
            final(self).values() == old(self).values().insert(key@, final(r)@),
    {
        self.kernel.insert(id, key);
        let p = match find_value(&self.keys, &key) {
            Some(p) => {
                proof {
                    assert(keys_of(self.keys@) =~= keys_of(self.keys@).insert(key@));
                    lemma_key_index(self.keys@, p as int);
                }
                p
            },
            None => {
                let v = default(&key);
                push_value(&mut self.keys, &mut self.vals, key, v);
                proof {
                    lemma_key_index(self.keys@, self.keys@.len() - 1);
                }
                self.keys.len() - 1
            },
        };
        let ghost vm = self.vals@;
        proof {
            lemma_key_index(self.keys@, p as int);
        }
        let r = &mut self.vals[p];
        proof {
            lemma_values_update(self.keys@, vm, p as int, *final(r));
        }
        r
    }

    /// When `key` holds a value, registers an edit by replica `id` under a fresh dot and
    /// applies `f` to the value; otherwise changes nothing.
    pub fn and_modify<F: FnOnce(&mut V)>(&mut self, key: K, id: ReplicaId, f: F)
        requires
            old(self).wf(),
            clock_at(old(self)@.0.0.0, id) < u64::MAX,
            forall|v: &mut V| f.requires((v,)),
        ensures
            final(self).wf(),
            final(self)@.1 == old(self)@.1,
            old(self)@.1.contains(key@) ==> final(self)@.0.1 == old(self)@.0.1.insert(
                key@,
                dots_at(old(self)@.0.1, key@).insert(
                    Dot { replica: id, seq: (clock_at(old(self)@.0.0.0, id) + 1) as u64 },
                ),
            ),
            old(self)@.1.contains(key@) ==> forall|x: Dot|
                #[trigger] dvv_has(final(self)@.0.0, x) == (dvv_has(old(self)@.0.0, x) || (x.replica
                    == id && x.seq <= clock_at(old(self)@.0.0.0, id) + 1)),
            old(self)@.1.contains(key@) ==> exists|m: &mut V|
                (*m)@ == old(self).values()[key@] && final(self).values() == old(self).values().insert(
                    key@,
                    (*final(m))@,
                ) && f.ensures((m,), ()),
            !old(self)@.1.contains(key@) ==> final(self)@.0 == old(self)@.0,
            !old(self)@.1.contains(key@) ==> final(self).values() == old(self).values(),
    {
        match find_value(&self.keys, &key) {
            Some(p) => {
                self.kernel.insert(id, key);
                let ghost vm = self.vals@;
                proof {
                    lemma_key_index(self.keys@, p as int);
                }
                let m = &mut self.vals[p];
                proof {
                    lemma_values_update(self.keys@, vm, p as int, *final(m));
                }
                f(m);
            },
            None => {},
        }
    }

}

impl<K: Key, V: ReplicaState> ORMap<K, V> {
    /// Registers an edit of `key` by replica `id` and returns its value, a default one when
    /// there is none.
    pub fn or_default(&mut self, key: K, id: ReplicaId) -> (r: &mut V)
        requires
            old(self).wf(),
            clock_at(old(self)@.0.0.0, id) < u64::MAX,
        ensures
            final(self)@.0.1 == old(self)@.0.1.insert(
                key@,
                dots_at(old(self)@.0.1, key@).insert(
                    Dot { replica: id, seq: (clock_at(old(self)@.0.0.0, id) + 1) as u64 },
                ),
            ),
            forall|x: Dot|
                #[trigger] dvv_has(final(self)@.0.0, x) == (dvv_has(old(self)@.0.0, x) || (x.replica
                    == id && x.seq <= clock_at(old(self)@.0.0.0, id) + 1)),
            final(self)@.1 == old(self)@.1.insert(key@),
            final(self).wf(),
            r@ == (if old(self)@.1.contains(key@) {
                old(self).values()[key@]
            } else {
                V::initial()
            }),
            final(self).values() == old(self).values().insert(key@, final(r)@),
    {
        self.or_insert(key, id, V::initial_state())
    }
}

impl<K: Key, V: Convergent + ReplicaState> ORMap<K, V> {
    /// Merges another replica's map: keys as the kernel merges them, and the values of every
    /// key that gained dots merged with the other replica's value.
    pub fn merge(&mut self, other: &ORMap<K, V>) -> (r: bool)
        requires
            old(self).wf(),
            other.wf(),
        ensures
            final(self).wf(),
            final(self)@.0.1 == kernel_merge(old(self)@.0.1, old(self)@.0.0, other@.0.1, other@.0.0),
            forall|x: Dot|
                #[trigger] dvv_has(final(self)@.0.0, x) == (dvv_has(old(self)@.0.0, x) || dvv_has(
                    other@.0.0,
                    x,
                )),
            dvv_compact(final(self)@.0.0),
            final(self)@.0.2 == old(self)@.0.2,
            final(self)@.1 == old(self)@.1.union(
                gained_keys(old(self)@.0.1, old(self)@.0.0, other@.0.1).intersect(other@.1),
            ).difference(dropped_keys(old(self)@.0.1, old(self)@.0.0, other@.0.1, other@.0.0)),
            forall|k: K::V| #[trigger] final(self).values().contains_key(k) ==> if gained_keys(
                old(self)@.0.1,
                old(self)@.0.0,
                other@.0.1,
            ).contains(k) && other@.1.contains(k) {
                value_merged::<V>(
                    final(self).values()[k],
                    if old(self)@.1.contains(k) {
                        Some(old(self).values()[k])
                    } else {
                        None
                    },
                    other.values()[k],
                )
            } else {
                final(self).values()[k] == old(self).values()[k]
            },
            r == (gained_keys(old(self)@.0.1, old(self)@.0.0, other@.0.1) != Set::<K::V>::empty() || dropped_keys(
                old(self)@.0.1,
                old(self)@.0.0,
                other@.0.1,
                other@.0.0,
            ) != Set::<K::V>::empty() || loses_dots(old(self)@.0.1, other@.0.1, other@.0.0) || dvv_gain(
                old(self)@.0.0,
                other@.0.0,
            )),
    {
        let ghost k0 = self@.1;
        let ghost from = other@.1;
        let ghost ov0 = self.values();
        let ghost ovs = other.values();
        let (changed, ev) = self.kernel.merge_with(&other.kernel);
        let ghost kmid = self.kernel@;
        let mut i: usize = 0;
        proof {
            assert(ev@.subrange(0, 0) =~= Seq::<MergeOp<K>>::empty());
            assert(updated_keys(Seq::<MergeOp<K>>::empty()) =~= Set::<K::V>::empty());
            assert(removed_keys(Seq::<MergeOp<K>>::empty()) =~= Set::<K::V>::empty());
            assert(keys_after(k0, ev@.subrange(0, 0), from) =~= k0);
        }
        while i < ev.len()
            invariant
                i <= ev@.len(),
                updates_first(ev@),
                from == other@.1,
                other.wf(),
                self.wf(),
                self.kernel@ == kmid,
                keys_of(self.keys@) == keys_after(k0, ev@.subrange(0, i as int), from),
                reported_once(ev@),
                ov0 == old(self).values(),
                ovs == other.values(),
                k0 == old(self)@.1,
                forall|k: K::V| #[trigger] self.values().contains_key(k) ==> if updated_keys(
                    ev@.subrange(0, i as int),
                ).contains(k) && from.contains(k) {
                    value_merged::<V>(
                        self.values()[k],
                        if k0.contains(k) {
                            Some(ov0[k])
                        } else {
                            None
                        },
                        ovs[k],
                    )
                } else {
                    self.values()[k] == ov0[k]
                },
            decreases ev@.len() - i,
        {
            proof {
                lemma_keys_step(k0, ev@, from, i as int);
                lemma_first_report(ev@, i as int);
                let pre = ev@.subrange(0, i as int);
                let post = ev@.subrange(0, i as int + 1);
                assert(post =~= pre.push(ev@[i as int]));
                match ev@[i as int] {
                    MergeOp::Updated(k) => {
                        kernel::lemma_push_update(pre, k);
                    },
                    MergeOp::Removed(k) => {
                        kernel::lemma_push_removal(pre, k);
                    },
                }
            }
            let ghost vb = self.values();
            let ghost kb = keys_of(self.keys@);
            match &ev[i] {
                MergeOp::Updated(k) => {
                    match find_value(&other.keys, k) {
                        Some(q) => {
                            let ghost s0 = self.keys@;
                            proof {
                                lemma_key_index(other.keys@, q as int);
                                assert(from.contains(k@));
                                assert(kb.contains(k@) == k0.contains(k@));
                            }
                            let p = match find_value(&self.keys, k) {
                                Some(p) => {
                                    proof {
                                        assert(keys_of(s0) =~= keys_of(s0).insert(k@));
                                        lemma_key_index(s0, p as int);
                                    }
                                    p
                                },
                                None => {
                                    push_value(&mut self.keys, &mut self.vals, *k, V::initial_state());
                                    self.keys.len() - 1
                                },
                            };
                            let ghost vm = self.vals@;
                            let ghost before = self.vals@[p as int]@;
                            proof {
                                lemma_key_index(self.keys@, p as int);
                            }
                            self.vals[p].merge(&other.vals[q]);
                            proof {
                                assert(self.vals@ == vm.update(p as int, self.vals@[p as int]));
                                lemma_values_update(self.keys@, vm, p as int, self.vals@[p as int]);
                                assert(self.values() == values_of(self.keys@, vm).insert(k@, V::merged(before, ovs[k@])));
                                if k0.contains(k@) {
                                    assert(vb.contains_key(k@));
                                    assert(before == ov0[k@]);
                                }
                                assert(value_merged::<V>(self.values()[k@], if k0.contains(k@) { Some(ov0[k@]) } else { None }, ovs[k@]));
                                assert forall|x: K::V| #[trigger] self.values().contains_key(x) && x != k@ implies self.values()[x] == vb[x] by {
                                    assert(values_of(self.keys@, vm).contains_key(x));
                                    if !kb.contains(x) {
                                        assert(keys_of(self.keys@) == kb.insert(k@));
                                    }
                                }
                            }
                        },
                        None => {
                            proof {
                                assert(!from.contains(k@));
                            }
                        },
                    }
                },
                MergeOp::Removed(k) => {
                    take_value(&mut self.keys, &mut self.vals, k);
                },
            }
            i = i + 1;
        }
        proof {
            assert(ev@.subrange(0, ev@.len() as int) =~= ev@);
            assert(keys_after(k0, ev@, from) =~= k0.union(
                gained_keys(old(self)@.0.1, old(self)@.0.0, other@.0.1).intersect(from),
            ).difference(dropped_keys(old(self)@.0.1, old(self)@.0.0, other@.0.1, other@.0.0)));
            if ev@.len() > 0 {
                match ev@[0] {
                    MergeOp::Updated(k) => {
                        assert(kernel::reports_update(ev@[0], k@));
                        assert(updated_keys(ev@).contains(k@));
                    },
                    MergeOp::Removed(k) => {
                        assert(kernel::reports_removal(ev@[0], k@));
                        assert(removed_keys(ev@).contains(k@));
                    },
                }
            } else {
                assert(updated_keys(ev@) =~= Set::<K::V>::empty());
                assert(removed_keys(ev@) =~= Set::<K::V>::empty());
            }
        }
        changed
    }
}

/// The changes of an observed-remove map since its last hand-out: the kernel's, and the
/// changes of the values of the keys it inserted under.
#[derive(Debug, Clone)]
pub struct Delta<K: Key, D> {
    kernel: kernel::Delta<K>,
    keys: Vec<K>,
    vals: Vec<D>,
}

impl<K: Key, D> View for Delta<K, D> {
    type V = ((Map<K::V, Set<Dot>>, Set<Dot>), Set<K::V>);

    closed spec fn view(&self) -> Self::V {
        (self.kernel@, keys_of(self.keys@))
    }
}

impl<K: Key, D> Delta<K, D> {
    /// The key list and the value list run in parallel.
    pub closed spec fn wf(&self) -> bool {
        self.keys@.len() == self.vals@.len() && unique_keys(self.keys@)
    }
}

impl<K: Key, D: View> Delta<K, D> {
    /// The change carried for each key.
    pub closed spec fn values(&self) -> Map<K::V, D::V> {
        values_of(self.keys@, self.vals@)
    }
}

impl<K: Key, D: Convergent + Default> Delta<K, D> {
    /// Folds in another delta: the kernels merge, and the value changes merge keywise.
    pub fn merge(&mut self, other: &Delta<K, D>) -> (r: bool)
        requires
            old(self).wf(),
            other.wf(),
        ensures
            final(self).wf(),
            final(self)@.0.0 == kernel::kernel_union(old(self)@.0.0, other@.0.0),
            final(self)@.0.1 == old(self)@.0.1.union(other@.0.1),
            final(self)@.1 == old(self)@.1.union(other@.1),
    {
        let mut changed = self.kernel.merge(&other.kernel);
        let ghost kd0 = self.kernel@;
        let ghost k0 = self@.1;
        let mut i: usize = 0;
        proof {
            assert(keys_of(other.keys@.subrange(0, 0)) =~= Set::<K::V>::empty());
            assert(k0.union(Set::<K::V>::empty()) =~= k0);
        }
        while i < other.keys.len()
            invariant
                i <= other.keys@.len(),
                other.wf(),
                self.wf(),
                self.kernel@ == kd0,
                keys_of(self.keys@) == k0.union(keys_of(other.keys@.subrange(0, i as int))),
            decreases other.keys@.len() - i,
        {
            let k = other.keys[i];
            let p = match find_value(&self.keys, &k) {
                Some(p) => p,
                None => {
                    push_value(&mut self.keys, &mut self.vals, k, D::default());
                    changed = true;
                    self.keys.len() - 1
                },
            };
            let c = self.vals[p].merge(&other.vals[i]);
            changed = changed || c;
            proof {
                let pre = other.keys@.subrange(0, i as int);
                let post = other.keys@.subrange(0, i as int + 1);
                assert forall|q: K::V| #[trigger] keys_of(post).contains(q) <==> keys_of(pre).insert(k@).contains(q) by {
                    if keys_of(pre).contains(q) {
                        let j = choose|j: int| 0 <= j < pre.len() && pre[j]@ == q;
                        assert(post[j] == pre[j]);
                    }
                    if q == k@ {
                        assert(post[i as int] == k);
                    }
                    if keys_of(post).contains(q) {
                        let j = choose|j: int| 0 <= j < post.len() && post[j]@ == q;
                        if j < i {
                            assert(pre[j] == post[j]);
                        }
                    }
                }
                assert(keys_of(self.keys@) =~= k0.union(keys_of(post)));
            }
            i = i + 1;
        }
        proof {
            assert(other.keys@.subrange(0, other.keys@.len() as int) =~= other.keys@);
        }
        changed
    }
}

impl<K: Key, V: DeltaConvergent> ORMap<K, V> {
    /// Moves the pending changes out: the kernel's, with the pending changes of the values of
    /// the keys it inserted under.
    pub fn delta(&mut self) -> (r: Option<Delta<K, V::Delta>>)
        requires
            old(self).wf(),
        ensures
            final(self).wf(),
            final(self)@.0.0 == old(self)@.0.0,
            final(self)@.0.1 == old(self)@.0.1,
            final(self)@.0.2 is None,
            final(self)@.1 == old(self)@.1,
            r is Some <==> old(self)@.0.2 is Some,
            r is Some ==> Some(r->0@.0) == old(self)@.0.2 && r->0.wf() && r->0@.1.subset_of(
                old(self)@.1,
            ),
            final(self).values() == Map::new(
                |k: K::V| old(self).values().contains_key(k),
                |k: K::V|
                    if old(self)@.0.2 is Some && pending_delta(old(self)@.0.2).0.contains_key(k) {
                        V::handed_out(old(self).values()[k])
                    } else {
                        old(self).values()[k]
                    },
            ),
            r is Some ==> r->0.values() == Map::new(
                |k: K::V|
                    old(self).values().contains_key(k) && pending_delta(old(self)@.0.2).0.contains_key(k)
                        && V::pending(old(self).values()[k]) is Some,
                |k: K::V| V::pending(old(self).values()[k])->0,
            ),
    {
        let ghost ov0 = self.values();
        match self.kernel.delta() {
            None => {
                proof {
                    assert(self.values() =~= Map::new(
                        |k: K::V| ov0.contains_key(k),
                        |k: K::V|
                            if old(self)@.0.2 is Some && pending_delta(old(self)@.0.2).0.contains_key(k) {
                                V::handed_out(ov0[k])
                            } else {
                                ov0[k]
                            },
                    ));
                }
                None
            },
            Some(kd) => {
                let ks = kd.keys();
                let mut keys: Vec<K> = Vec::new();
                let mut vals: Vec<V::Delta> = Vec::new();
                let ghost k0 = self@.1;
                let ghost kn = self.kernel@;
                let ghost dk = kd@.0;
                let mut i: usize = 0;
                proof {
                    assert(keys_of(keys@) =~= Set::<K::V>::empty());
                    assert(self.values() =~= Map::new(
                        |k: K::V| ov0.contains_key(k),
                        |k: K::V| if exists|j: int| 0 <= j < 0 && ks@[j]@ == k { V::handed_out(ov0[k]) } else { ov0[k] },
                    ));
                    assert(values_of(keys@, vals@) =~= Map::new(
                        |k: K::V| ov0.contains_key(k) && (exists|j: int| 0 <= j < 0 && ks@[j]@ == k) && V::pending(ov0[k]) is Some,
                        |k: K::V| V::pending(ov0[k])->0,
                    ));
                }
                while i < ks.len()
                    invariant
                        i <= ks@.len(),
                        self.wf(),
                        keys@.len() == vals@.len(),
                        keys_of(self.keys@) == k0,
                        self.kernel@ == kn,
                        keys_of(keys@).subset_of(k0),
                        unique_keys(keys@),
                        forall|x: int, y: int| 0 <= x < y < ks@.len() ==> ks@[x]@ != ks@[y]@,
                        forall|x: int| 0 <= x < keys@.len() ==> exists|j: int| 0 <= j < i && #[trigger] keys@[x]@ == ks@[j]@,
                        ov0 == old(self).values(),
                        k0 == old(self)@.1,
                        self.values() == Map::new(
                            |k: K::V| ov0.contains_key(k),
                            |k: K::V| if exists|j: int| 0 <= j < i && ks@[j]@ == k { V::handed_out(ov0[k]) } else { ov0[k] },
                        ),
                        values_of(keys@, vals@) == Map::new(
                            |k: K::V| ov0.contains_key(k) && (exists|j: int| 0 <= j < i && ks@[j]@ == k) && V::pending(ov0[k]) is Some,
                            |k: K::V| V::pending(ov0[k])->0,
                        ),
                    decreases ks@.len() - i,
                {
                    let ghost k = ks@[i as int]@;
                    let ghost vb = self.values();
                    let ghost db = values_of(keys@, vals@);
                    proof {
                        assert(!exists|j: int| 0 <= j < i && ks@[j]@ == k) by {
                            if exists|j: int| 0 <= j < i && ks@[j]@ == k {
                                let j = choose|j: int| 0 <= j < i && ks@[j]@ == k;
                            }
                        }
                    }
                    match find_value(&self.keys, &ks[i]) {
                        Some(p) => {
                            let ghost s0 = self.keys@;
                            let ghost vm = self.vals@;
                            proof {
                                lemma_key_index(self.keys@, p as int);
                                assert(self.keys@[p as int]@ == k);
                                assert(self.values().contains_key(k));
                                assert(self.values()[k] == vm[p as int]@);
                                assert(ov0.contains_key(k));
                                assert(vm[p as int]@ == ov0[k]);
                            }
                            let out = self.vals[p].delta();
                            proof {
                                assert(self.vals@ == vm.update(p as int, self.vals@[p as int]));
                                lemma_values_update(self.keys@, vm, p as int, self.vals@[p as int]);
                                assert(self.values() =~= Map::new(
                                    |q: K::V| ov0.contains_key(q),
                                    |q: K::V| if exists|j: int| 0 <= j < i + 1 && ks@[j]@ == q { V::handed_out(ov0[q]) } else { ov0[q] },
                                )) by {
                                    assert forall|q: K::V| #[trigger] self.values().contains_key(q) implies self.values()[q] == (if exists|j: int| 0 <= j < i + 1 && ks@[j]@ == q { V::handed_out(ov0[q]) } else { ov0[q] }) by {
                                        if q == k {
                                            assert(ks@[i as int]@ == q);
                                        } else {
                                            if exists|j: int| 0 <= j < i + 1 && ks@[j]@ == q {
                                                let j = choose|j: int| 0 <= j < i + 1 && ks@[j]@ == q;
                                                assert(j != i);
                                            }
                                        }
                                    }
                                }
                            }
                            match out {
                                Some(d) => {
                                    proof {
                                        if keys_of(keys@).contains(ks@[i as int]@) {
                                            let x = choose|x: int| 0 <= x < keys@.len() && keys@[x]@ == ks@[i as int]@;
                                            let j = choose|j: int| 0 <= j < i && keys@[x]@ == ks@[j]@;
                                        }
                                    }
                                    let ghost kb = keys@;
                                    proof {
                                        assert(V::pending(ov0[k]) == Some(d@));
                                    }
                                    push_value(&mut keys, &mut vals, ks[i], d);
                                    proof {
                                        assert forall|x: int| 0 <= x < keys@.len() implies exists|j: int| 0 <= j < i + 1 && #[trigger] keys@[x]@ == ks@[j]@ by {
                                            if x < kb.len() {
                                                assert(keys@[x] == kb[x]);
                                                let j = choose|j: int| 0 <= j < i && kb[x]@ == ks@[j]@;
                                            } else {
                                                assert(keys@[x] == ks@[i as int]);
                                            }
                                        }
                                        assert(keys_of(s0).contains(s0[p as int]@));
                                        assert(values_of(keys@, vals@) == db.insert(k, d@));
                                    }
                                },
                                None => {
                                    proof {
                                        assert(V::pending(ov0[k]) is None);
                                    }
                                },
                            }
                            proof {
                                assert forall|q: K::V| #[trigger] values_of(keys@, vals@).contains_key(q) <==> (ov0.contains_key(q) && (exists|j: int| 0 <= j < i + 1 && ks@[j]@ == q) && V::pending(ov0[q]) is Some) by {
                                    if q == k {
                                        assert(ks@[i as int]@ == q);
                                    } else if exists|j: int| 0 <= j < i + 1 && ks@[j]@ == q {
                                        let j = choose|j: int| 0 <= j < i + 1 && ks@[j]@ == q;
                                        assert(j != i);
                                    }
                                }
                                assert(values_of(keys@, vals@) =~= Map::new(
                                    |q: K::V| ov0.contains_key(q) && (exists|j: int| 0 <= j < i + 1 && ks@[j]@ == q) && V::pending(ov0[q]) is Some,
                                    |q: K::V| V::pending(ov0[q])->0,
                                ));
                            }
                        },
                        None => {
                            proof {
                                assert(!keys_of(self.keys@).contains(k));
                                assert(!k0.contains(k));
                                assert(!old(self)@.1.contains(k));
                                assert(!ov0.contains_key(k));
                                assert(self.values() =~= Map::new(
                                    |q: K::V| ov0.contains_key(q),
                                    |q: K::V| if exists|j: int| 0 <= j < i + 1 && ks@[j]@ == q { V::handed_out(ov0[q]) } else { ov0[q] },
                                )) by {
                                    assert forall|q: K::V| #[trigger] self.values().contains_key(q) implies self.values()[q] == (if exists|j: int| 0 <= j < i + 1 && ks@[j]@ == q { V::handed_out(ov0[q]) } else { ov0[q] }) by {
                                        if exists|j: int| 0 <= j < i + 1 && ks@[j]@ == q {
                                            let j = choose|j: int| 0 <= j < i + 1 && ks@[j]@ == q;
                                            assert(j != i);
                                        }
                                    }
                                }
                                assert forall|q: K::V| #[trigger] values_of(keys@, vals@).contains_key(q) <==> (ov0.contains_key(q) && (exists|j: int| 0 <= j < i + 1 && ks@[j]@ == q) && V::pending(ov0[q]) is Some) by {
                                    if exists|j: int| 0 <= j < i + 1 && ks@[j]@ == q {
                                        let j = choose|j: int| 0 <= j < i + 1 && ks@[j]@ == q;
                                        if j == i {
                                            assert(!ov0.contains_key(q));
                                        }
                                    }
                                }
                                assert(values_of(keys@, vals@) =~= Map::new(
                                    |q: K::V| ov0.contains_key(q) && (exists|j: int| 0 <= j < i + 1 && ks@[j]@ == q) && V::pending(ov0[q]) is Some,
                                    |q: K::V| V::pending(ov0[q])->0,
                                ));
                            }
                        },
                    }
                    i = i + 1;
                }
                proof {
                    assert forall|q: K::V| (exists|j: int| 0 <= j < ks@.len() && ks@[j]@ == q) <==> #[trigger] dk.contains_key(q) by {
                        if dk.contains_key(q) {
                            let j = choose|j: int| 0 <= j < ks@.len() && ks@[j]@ == q;
                        }
                    }
                    assert(self.values() =~= Map::new(
                        |k: K::V| ov0.contains_key(k),
                        |k: K::V|
                            if old(self)@.0.2 is Some && pending_delta(old(self)@.0.2).0.contains_key(k) {
                                V::handed_out(ov0[k])
                            } else {
                                ov0[k]
                            },
                    ));
                }
                let r = Delta { kernel: kd, keys, vals };
                proof {
                    assert(r.values() =~= Map::new(
                        |k: K::V| ov0.contains_key(k) && pending_delta(old(self)@.0.2).0.contains_key(k) && V::pending(ov0[k]) is Some,
                        |k: K::V| V::pending(ov0[k])->0,
                    ));
                }
                Some(r)
            },
        }
    }

}

impl<K: Key, V: DeltaConvergent + ReplicaState> ORMap<K, V> {
    /// Folds in changes handed out by another replica: keys as the kernel folds them in, and
    /// the value changes of every key whose insert applied.
    pub fn merge_delta(&mut self, other: &Delta<K, V::Delta>) -> (r: bool)
        requires
            old(self).wf(),
            other.wf(),
        ensures
            final(self).wf(),
            final(self)@.0.1 == delta_stripped(
                delta_inserted(old(self)@.0.1, other@.0.0, old(self)@.0.0, other@.0.1),
                other@.0.1,
            ),
            final(self)@.0.0 == old(self)@.0.0,
            final(self)@.0.2 == old(self)@.0.2,
            final(self)@.1 == old(self)@.1.union(
                inserted_keys(old(self)@.0.1, other@.0.0, old(self)@.0.0, other@.0.1).intersect(other@.1),
            ).difference(
                emptied_keys(delta_inserted(old(self)@.0.1, other@.0.0, old(self)@.0.0, other@.0.1), other@.0.1),
            ),
            forall|k: K::V| #[trigger] final(self).values().contains_key(k) ==> if inserted_keys(
                old(self)@.0.1,
                other@.0.0,
                old(self)@.0.0,
                other@.0.1,
            ).contains(k) && other@.1.contains(k) {
                value_delta_merged::<V>(
                    final(self).values()[k],
                    if old(self)@.1.contains(k) {
                        Some(old(self).values()[k])
                    } else {
                        None
                    },
                    other.values()[k],
                )
            } else {
                final(self).values()[k] == old(self).values()[k]
            },
            r == (inserted_keys(old(self)@.0.1, other@.0.0, old(self)@.0.0, other@.0.1) != Set::<K::V>::empty()
                || strips_some(old(self)@.0.1, other@.0.1)),
    {
        let ghost k0 = self@.1;
        let ghost from = other@.1;
        let ghost ov0 = self.values();
        let ghost ovs = other.values();
        let (changed, ev) = self.kernel.merge_with_delta(&other.kernel);
        let ghost kmid = self.kernel@;
        let mut i: usize = 0;
        proof {
            assert(ev@.subrange(0, 0) =~= Seq::<MergeOp<K>>::empty());
            assert(updated_keys(Seq::<MergeOp<K>>::empty()) =~= Set::<K::V>::empty());
            assert(removed_keys(Seq::<MergeOp<K>>::empty()) =~= Set::<K::V>::empty());
            assert(keys_after(k0, ev@.subrange(0, 0), from) =~= k0);
        }
        while i < ev.len()
            invariant
                i <= ev@.len(),
                updates_first(ev@),
                from == other@.1,
                other.wf(),
                self.wf(),
                self.kernel@ == kmid,
                keys_of(self.keys@) == keys_after(k0, ev@.subrange(0, i as int), from),
                reported_once(ev@),
                ov0 == old(self).values(),
                ovs == other.values(),
                k0 == old(self)@.1,
                forall|k: K::V| #[trigger] self.values().contains_key(k) ==> if updated_keys(
                    ev@.subrange(0, i as int),
                ).contains(k) && from.contains(k) {
                    value_delta_merged::<V>(
                        self.values()[k],
                        if k0.contains(k) {
                            Some(ov0[k])
                        } else {
                            None
                        },
                        ovs[k],
                    )
                } else {
                    self.values()[k] == ov0[k]
                },
            decreases ev@.len() - i,
        {
            proof {
                lemma_keys_step(k0, ev@, from, i as int);
                lemma_first_report(ev@, i as int);
                let pre = ev@.subrange(0, i as int);
                let post = ev@.subrange(0, i as int + 1);
                assert(post =~= pre.push(ev@[i as int]));
                match ev@[i as int] {
                    MergeOp::Updated(k) => {
                        kernel::lemma_push_update(pre, k);
                    },
                    MergeOp::Removed(k) => {
                        kernel::lemma_push_removal(pre, k);
                    },
                }
            }
            let ghost vb = self.values();
            let ghost kb = keys_of(self.keys@);
            match &ev[i] {
                MergeOp::Updated(k) => {
                    match find_value(&other.keys, k) {
                        Some(q) => {
                            let ghost s0 = self.keys@;
                            proof {
                                lemma_key_index(other.keys@, q as int);
                                assert(from.contains(k@));
                                assert(kb.contains(k@) == k0.contains(k@));
                            }
                            let p = match find_value(&self.keys, k) {
                                Some(p) => {
                                    proof {
                                        assert(keys_of(s0) =~= keys_of(s0).insert(k@));
                                        lemma_key_index(s0, p as int);
                                    }
                                    p
                                },
                                None => {
                                    push_value(&mut self.keys, &mut self.vals, *k, V::initial_state());
                                    self.keys.len() - 1
                                },
                            };
                            let ghost vm = self.vals@;
                            let ghost before = self.vals@[p as int]@;
                            proof {
                                lemma_key_index(self.keys@, p as int);
                            }
                            self.vals[p].merge_delta(&other.vals[q]);
                            proof {
                                assert(self.vals@ == vm.update(p as int, self.vals@[p as int]));
                                lemma_values_update(self.keys@, vm, p as int, self.vals@[p as int]);
                                assert(self.values() == values_of(self.keys@, vm).insert(k@, V::delta_merged(before, ovs[k@])));
                                if k0.contains(k@) {
                                    assert(vb.contains_key(k@));
                                    assert(before == ov0[k@]);
                                }
                                assert(value_delta_merged::<V>(self.values()[k@], if k0.contains(k@) { Some(ov0[k@]) } else { None }, ovs[k@]));
                                assert forall|x: K::V| #[trigger] self.values().contains_key(x) && x != k@ implies self.values()[x] == vb[x] by {
                                    assert(values_of(self.keys@, vm).contains_key(x));
                                    if !kb.contains(x) {
                                        assert(keys_of(self.keys@) == kb.insert(k@));
                                    }
                                }
                            }
                        },
                        None => {
                            proof {
                                assert(!from.contains(k@));
                            }
                        },
                    }
                },
                MergeOp::Removed(k) => {
                    take_value(&mut self.keys, &mut self.vals, k);
                },
            }
            i = i + 1;
        }
        proof {
            assert(ev@.subrange(0, ev@.len() as int) =~= ev@);
            assert(keys_after(k0, ev@, from) =~= k0.union(
                inserted_keys(old(self)@.0.1, other@.0.0, old(self)@.0.0, other@.0.1).intersect(from),
            ).difference(
                emptied_keys(delta_inserted(old(self)@.0.1, other@.0.0, old(self)@.0.0, other@.0.1), other@.0.1),
            ));
        }
        changed
    }
}

impl<K: Key, V: View> Default for ORMap<K, V> {
    fn default() -> (r: Self)
        ensures
            r@.0.0.0 == Map::<ReplicaId, u64>::empty(),
            r@.0.0.1 == Set::<Dot>::empty(),
            r@.0.1 == Map::<K::V, Set<Dot>>::empty(),
            r@.0.2 is None,
            r@.1 == Set::<K::V>::empty(),
            r.wf(),
    {
        ORMap::new()
    }
}

/// A key of a map, with the map, for editing the key's value.
pub struct Entry<'a, K: Key, V> {
    pub key: K,
    pub handle: &'a mut ORMap<K, V>,
}

impl<K: Key, V: View> ORMap<K, V> {
    /// The entry of `key`, for editing its value.
    pub fn entry(&mut self, key: K) -> (r: Entry<'_, K, V>)
        ensures
            r.key == key,
            *r.handle == *old(self),
            *final(self) == *final(r.handle),
    {
        Entry { key, handle: self }
    }
}

impl<'a, K: Key, V: View> Entry<'a, K, V> {
    pub fn key(&self) -> (r: &K)
        ensures
            *r == self.key,
    {
        &self.key
    }

    /// Registers an edit of the key by replica `id` under a fresh dot, and returns its value,
    /// inserting `default` when there is none.
    pub fn or_insert(self, id: ReplicaId, default: V) -> (r: &'a mut V)
        requires
            self.handle.wf(),
            clock_at(self.handle@.0.0.0, id) < u64::MAX,
        ensures
            final(self.handle)@.0.1 == old(self.handle)@.0.1.insert(
                self.key@,
                dots_at(old(self.handle)@.0.1, self.key@).insert(
                    Dot { replica: id, seq: (clock_at(old(self.handle)@.0.0.0, id) + 1) as u64 },
                ),
            ),
            final(self.handle)@.1 == old(self.handle)@.1.insert(self.key@),
            forall|x: Dot|
                #[trigger] dvv_has(final(self.handle)@.0.0, x) == (dvv_has(old(self.handle)@.0.0, x)
                    || (x.replica == id && x.seq <= clock_at(old(self.handle)@.0.0.0, id) + 1)),
            final(self.handle).wf(),
            r@ == (if old(self.handle)@.1.contains(self.key@) {
                old(self.handle).values()[self.key@]
            } else {
                default@
            }),
            final(self.handle).values() == old(self.handle).values().insert(self.key@, final(r)@),
    {
        self.handle.or_insert(self.key, id, default)
    }

    /// Registers an edit of the key by replica `id` and returns its value, made by `default`
    /// when there is none.
    pub fn or_insert_with<F: FnOnce() -> V>(self, id: ReplicaId, default: F) -> (r: &'a mut V)
        requires
            self.handle.wf(),
            clock_at(self.handle@.0.0.0, id) < u64::MAX,
            default.requires(()),
        ensures
            !old(self.handle)@.1.contains(self.key@) ==> exists|v: V| default.ensures((), v) && r@ == v@,
            final(self.handle)@.0.1 == old(self.handle)@.0.1.insert(
                self.key@,
                dots_at(old(self.handle)@.0.1, self.key@).insert(
                    Dot { replica: id, seq: (clock_at(old(self.handle)@.0.0.0, id) + 1) as u64 },
                ),
            ),
            final(self.handle)@.1 == old(self.handle)@.1.insert(self.key@),
            forall|x: Dot|
                #[trigger] dvv_has(final(self.handle)@.0.0, x) == (dvv_has(old(self.handle)@.0.0, x)
                    || (x.replica == id && x.seq <= clock_at(old(self.handle)@.0.0.0, id) + 1)),
            final(self.handle).wf(),
            old(self.handle)@.1.contains(self.key@) ==> r@ == old(self.handle).values()[self.key@],
            final(self.handle).values() == old(self.handle).values().insert(self.key@, final(r)@),
    {
        self.handle.or_insert_with(self.key, id, default)
    }

    /// Registers an edit of the key by replica `id` and returns its value, made by `default`
    /// from the key when there is none.
    pub fn or_insert_with_key<F: FnOnce(&K) -> V>(self, id: ReplicaId, default: F) -> (r: &'a mut V)
        requires
            self.handle.wf(),
            clock_at(self.handle@.0.0.0, id) < u64::MAX,
            forall|k: &K| default.requires((k,)),
        ensures
            !old(self.handle)@.1.contains(self.key@) ==> exists|v: V| default.ensures((&self.key,), v) && r@ == v@,
            final(self.handle)@.0.1 == old(self.handle)@.0.1.insert(
                self.key@,
                dots_at(old(self.handle)@.0.1, self.key@).insert(
                    Dot { replica: id, seq: (clock_at(old(self.handle)@.0.0.0, id) + 1) as u64 },
                ),
            ),
            final(self.handle)@.1 == old(self.handle)@.1.insert(self.key@),
            forall|x: Dot|
                #[trigger] dvv_has(final(self.handle)@.0.0, x) == (dvv_has(old(self.handle)@.0.0, x)
                    || (x.replica == id && x.seq <= clock_at(old(self.handle)@.0.0.0, id) + 1)),
            final(self.handle).wf(),
            old(self.handle)@.1.contains(self.key@) ==> r@ == old(self.handle).values()[self.key@],
            final(self.handle).values() == old(self.handle).values().insert(self.key@, final(r)@),
    {
        self.handle.or_insert_with_key(self.key, id, default)
    }

    /// When the key holds a value, registers an edit by replica `id` and applies `f` to it;
    /// returns the entry for further edits.
    pub fn and_modify<F: FnOnce(&mut V)>(self, id: ReplicaId, f: F) -> (r: Entry<'a, K, V>)
        requires
            self.handle.wf(),
            clock_at(self.handle@.0.0.0, id) < u64::MAX,
            forall|v: &mut V| f.requires((v,)),
        ensures
            r.key == self.key,
            r.handle.wf(),
            r.handle@.1 == old(self.handle)@.1,
            old(self.handle)@.1.contains(self.key@) ==> r.handle@.0.1 == old(self.handle)@.0.1.insert(
                self.key@,
                dots_at(old(self.handle)@.0.1, self.key@).insert(
                    Dot { replica: id, seq: (clock_at(old(self.handle)@.0.0.0, id) + 1) as u64 },
                ),
            ),
            !old(self.handle)@.1.contains(self.key@) ==> r.handle@.0 == old(self.handle)@.0,
            old(self.handle)@.1.contains(self.key@) ==> forall|x: Dot|
                #[trigger] dvv_has(r.handle@.0.0, x) == (dvv_has(old(self.handle)@.0.0, x) || (
                x.replica == id && x.seq <= clock_at(old(self.handle)@.0.0.0, id) + 1)),
            old(self.handle)@.1.contains(self.key@) ==> exists|m: &mut V|
                (*m)@ == old(self.handle).values()[self.key@] && r.handle.values()
                    == old(self.handle).values().insert(self.key@, (*final(m))@) && f.ensures(
                    (m,),
                    (),
                ),
            !old(self.handle)@.1.contains(self.key@) ==> r.handle.values() == old(
                self.handle,
            ).values(),
            *final(self.handle) == *final(r.handle),
    {
        let Entry { key, handle } = self;
        handle.and_modify(key, id, f);
        Entry { key, handle }
    }
}

impl<'a, K: Key, V: ReplicaState> Entry<'a, K, V> {
    /// Registers an edit of the key by replica `id` and returns its value, a default one when
    /// there is none.
    pub fn or_default(self, id: ReplicaId) -> (r: &'a mut V)
        requires
            self.handle.wf(),
            clock_at(self.handle@.0.0.0, id) < u64::MAX,
        ensures
            final(self.handle)@.0.1 == old(self.handle)@.0.1.insert(
                self.key@,
                dots_at(old(self.handle)@.0.1, self.key@).insert(
                    Dot { replica: id, seq: (clock_at(old(self.handle)@.0.0.0, id) + 1) as u64 },
                ),
            ),
            final(self.handle)@.1 == old(self.handle)@.1.insert(self.key@),
            forall|x: Dot|
                #[trigger] dvv_has(final(self.handle)@.0.0, x) == (dvv_has(old(self.handle)@.0.0, x)
                    || (x.replica == id && x.seq <= clock_at(old(self.handle)@.0.0.0, id) + 1)),
            final(self.handle).wf(),
            r@ == (if old(self.handle)@.1.contains(self.key@) {
                old(self.handle).values()[self.key@]
            } else {
                V::initial()
            }),
            final(self.handle).values() == old(self.handle).values().insert(self.key@, final(r)@),
    {
        self.handle.or_default(self.key, id)
    }
}

impl<K: Key, V: ReplicaState> Clone for ORMap<K, V> {
    fn clone(&self) -> (r: Self)
        ensures
            r@ == self@,
            self.wf() ==> r.wf() && r.values() == self.values(),
    {
        let mut keys: Vec<K> = Vec::new();
        let mut i: usize = 0;
        while i < self.keys.len()
            invariant
                i <= self.keys@.len(),
                keys@ == self.keys@.subrange(0, i as int),
            decreases self.keys@.len() - i,
        {
            keys.push(self.keys[i]);
            i = i + 1;
            assert(keys@ =~= self.keys@.subrange(0, i as int));
        }
        assert(keys@ =~= self.keys@);
        let mut vals: Vec<V> = Vec::new();
        let mut j: usize = 0;
        while j < self.vals.len()
            invariant
                j <= self.vals@.len(),
                vals@.len() == j,
                forall|x: int| 0 <= x < j ==> #[trigger] vals@[x]@ == self.vals@[x]@,
            decreases self.vals@.len() - j,
        {
            vals.push(self.vals[j].duplicate());
            j = j + 1;
        }
        let r = ORMap { kernel: self.kernel.clone(), keys, vals };
        proof {
            if self.wf() {
                assert forall|q: K::V| #[trigger] r.values().contains_key(q) implies r.values()[q] == self.values()[q] by {
                    let x = key_index(self.keys@, q);
                }
                assert(r.values() =~= self.values());
            }
        }
        r
    }
}

} // verus!
