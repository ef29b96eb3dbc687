//! Monotone quota transfers between replicas.
use vstd::prelude::*;
use crate::vtime::ReplicaId;

verus! {

/// A transfer route: from a sending replica to a receiving one.
pub type Route = (ReplicaId, ReplicaId);

/// The amount recorded for `k`; an absent route counts as zero.
pub open spec fn route_at(m: Map<Route, u64>, k: Route) -> u64 {
    if m.contains_key(k) {
        m[k]
    } else {
        0
    }
}

/// Routewise maximum of two transfer maps.
pub open spec fn routes_join(a: Map<Route, u64>, b: Map<Route, u64>) -> Map<Route, u64> {
    Map::new(
        |k: Route| a.contains_key(k) || b.contains_key(k),
        |k: Route|
            if route_at(a, k) >= route_at(b, k) {
                route_at(a, k)
            } else {
                route_at(b, k)
            },
    )
}

/// Whether some route records more in `b` than in `a`.
pub open spec fn routes_gain(a: Map<Route, u64>, b: Map<Route, u64>) -> bool {
    exists|k: Route| route_at(a, k) < route_at(b, k)
}

/// Sum of all amounts of a finite transfer map.
pub open spec fn routes_total(m: Map<Route, u64>) -> int
    decreases m.dom().len(),
{
    if m.dom().finite() && m.dom().len() > 0 {
        let k = m.dom().choose();
        m[k] + routes_total(m.remove(k))
    } else {
        0
    }
}

/// The routes that end at replica `r`.
pub open spec fn routes_into(m: Map<Route, u64>, r: ReplicaId) -> Map<Route, u64> {
    m.restrict(m.dom().filter(|k: Route| k.1 == r))
}

/// The routes that start at replica `r`.
pub open spec fn routes_from(m: Map<Route, u64>, r: ReplicaId) -> Map<Route, u64> {
    m.restrict(m.dom().filter(|k: Route| k.0 == r))
}

pub proof fn lemma_routes_total_remove(m: Map<Route, u64>, k: Route)
    requires
        m.dom().finite(),
        m.contains_key(k),
    ensures
        routes_total(m) == m[k] + routes_total(m.remove(k)),
    decreases m.dom().len(),
{
    let r = m.dom().choose();
    if r != k {
        lemma_routes_total_remove(m.remove(r), k);
        lemma_routes_total_remove(m.remove(k), r);
        assert(m.remove(r).remove(k) =~= m.remove(k).remove(r));
    }
}

proof fn lemma_routes_total_insert(m: Map<Route, u64>, k: Route, v: u64)
    requires
        m.dom().finite(),
        !m.contains_key(k),
    ensures
        routes_total(m.insert(k, v)) == routes_total(m) + v,
{
    lemma_routes_total_remove(m.insert(k, v), k);
    assert(m.insert(k, v).remove(k) =~= m);
}

spec fn routes_of(s: Seq<(Route, u64)>) -> Map<Route, u64>
    decreases s.len(),
{
    if s.len() == 0 {
        Map::empty()
    } else {
        routes_of(s.drop_last()).insert(s.last().0, s.last().1)
    }
}

spec fn distinct(s: Seq<(Route, u64)>) -> bool {
    forall|i: int, j: int| 0 <= i < j < s.len() ==> s[i].0 != s[j].0
}

proof fn lemma_routes_of(s: Seq<(Route, u64)>)
    requires
        distinct(s),
    ensures
        routes_of(s).dom().finite(),
        forall|i: int|
            0 <= i < s.len() ==> #[trigger] routes_of(s).contains_key(s[i].0) && routes_of(s)[s[i].0]
                == s[i].1,
        forall|k: Route| #[trigger]
            routes_of(s).contains_key(k) ==> exists|i: int| 0 <= i < s.len() && s[i].0 == k,
    decreases s.len(),
{
    if s.len() > 0 {
        let t = s.drop_last();
        lemma_routes_of(t);
        assert forall|i: int| 0 <= i < s.len() implies #[trigger] routes_of(s).contains_key(s[i].0)
            && routes_of(s)[s[i].0] == s[i].1 by {
            if i < s.len() - 1 {
                assert(t[i] == s[i]);
            }
        }
        assert forall|k: Route| #[trigger]
            routes_of(s).contains_key(k) implies exists|i: int| 0 <= i < s.len() && s[i].0 == k by {
            if k == s.last().0 {
                assert(s[s.len() - 1].0 == k);
            } else {
                let i = choose|i: int| 0 <= i < t.len() && t[i].0 == k;
                assert(s[i].0 == k);
            }
        }
    }
}

/// Amounts transferred along each route; every route appears once.
#[derive(Debug)]
pub struct Transfers {
    entries: Vec<(Route, u64)>,
}

impl View for Transfers {
    type V = Map<Route, u64>;

    closed spec fn view(&self) -> Map<Route, u64> {
        routes_of(self.entries@)
    }
}

impl Transfers {
    #[verifier::type_invariant]
    spec fn inv(self) -> bool {
        distinct(self.entries@)
    }

    pub fn new() -> (t: Transfers)
        ensures
            t@ == Map::<Route, u64>::empty(),
            t@.dom().finite(),
    {
        Transfers { entries: Vec::new() }
    }

    fn find(&self, k: Route) -> (p: usize)
        ensures
            p <= self.entries@.len(),
            p < self.entries@.len() ==> self.entries@[p as int].0 == k,
            p == self.entries@.len() ==> !self@.contains_key(k),
            p < self.entries@.len() ==> self@.contains_key(k) && self@[k] == self.entries@[p as int].1,
    {
        proof {
            use_type_invariant(self);
            lemma_routes_of(self.entries@);
        }
        let mut i: usize = 0;
        while i < self.entries.len()
            invariant
                i <= self.entries@.len(),
                distinct(self.entries@),
                forall|j: int| 0 <= j < i ==> self.entries@[j].0 != k,
            decreases self.entries@.len() - i,
        {
            let e = self.entries[i].0;
            if e.0 == k.0 && e.1 == k.1 {
                proof {
                    lemma_routes_of(self.entries@);
                    assert(self@.contains_key(self.entries@[i as int].0));
                }
                return i;
            }
            i = i + 1;
        }
        proof {
            lemma_routes_of(self.entries@);
        }
        i
    }

    /// The amount recorded for route `k`.
    pub fn get(&self, k: Route) -> (r: u64)
        ensures
            r == route_at(self@, k),
    {
        let p = self.find(k);
        if p < self.entries.len() {
            self.entries[p].1
        } else {
            0
        }
    }

    fn put(&mut self, k: Route, v: u64)
        ensures
            final(self)@ == old(self)@.insert(k, v),
    {
        let p = self.find(k);
        let ghost s = self.entries@;
        proof {
            use_type_invariant(&*self);
            lemma_routes_of(s);
        }
        let mut taken = Transfers::new();
        core::mem::swap(self, &mut taken);
        let mut e = taken.entries;
        if p < e.len() {
            e.set(p, (k, v));
            proof {
                let t = e@;
                assert(distinct(t));
                lemma_routes_of(t);
                assert forall|x: Route| #[trigger] routes_of(t).contains_key(x) <==> routes_of(
                    s,
                ).insert(k, v).contains_key(x) by {
                    if routes_of(t).contains_key(x) {
                        let i = choose|i: int| 0 <= i < t.len() && t[i].0 == x;
                        if i != p {
                            assert(s[i] == t[i]);
                        }
                    }
                    if routes_of(s).contains_key(x) {
                        let i = choose|i: int| 0 <= i < s.len() && s[i].0 == x;
                        if i != p {
                            assert(s[i] == t[i]);
                        }
                        assert(routes_of(t).contains_key(t[i].0));
                    }
                }
                assert forall|x: Route| #[trigger] routes_of(t).contains_key(x) implies routes_of(
                    t,
                )[x] == routes_of(s).insert(k, v)[x] by {
                    let i = choose|i: int| 0 <= i < t.len() && t[i].0 == x;
                    if i != p {
                        assert(s[i] == t[i]);
                        assert(routes_of(s).contains_key(s[i].0));
                    }
                }
                assert(routes_of(t) =~= routes_of(s).insert(k, v));
            }
        } else {
            e.push((k, v));
            proof {
                assert(e@.drop_last() =~= s);
                assert forall|i: int, j: int| 0 <= i < j < e@.len() implies e@[i].0 != e@[j].0 by {
                    if j == s.len() {
                        assert(routes_of(s).contains_key(s[i].0));
                    } else {
                        assert(e@[i] == s[i]);
                        assert(e@[j] == s[j]);
                    }
                }
            }
        }
        *self = Transfers { entries: e };
    }

    /// Adds `q` to the amount of route `k`.
    pub fn add(&mut self, k: Route, q: u64)
        requires
            route_at(old(self)@, k) + q <= u64::MAX,
        ensures
            final(self)@ == old(self)@.insert(k, (route_at(old(self)@, k) + q) as u64),
            final(self)@.dom().finite(),
    {
        let cur = self.get(k);
        self.put(k, cur + q);
        proof {
            use_type_invariant(&*self);
            lemma_routes_of(self.entries@);
        }
    }

    /// Raises every route to at least the amount of `other`; returns whether anything grew.
    pub fn merge(&mut self, other: &Transfers) -> (r: bool)
        ensures
            final(self)@ == routes_join(old(self)@, other@),
            r == routes_gain(old(self)@, other@),
            final(self)@.dom().finite(),
    {
        let ghost a = self@;
        let ghost o = other.entries@;
        proof {
            use_type_invariant(other);
            lemma_routes_of(o);
            assert(o.subrange(0, 0) =~= Seq::<(Route, u64)>::empty());
            assert(routes_join(a, Map::empty()) =~= a);
        }
        let mut changed = false;
        let mut i: usize = 0;
        while i < other.entries.len()
            invariant
                i <= o.len(),
                o == other.entries@,
                distinct(o),
                self@ == routes_join(a, routes_of(o.subrange(0, i as int))),
                changed == routes_gain(a, routes_of(o.subrange(0, i as int))),
            decreases o.len() - i,
        {
            let (k, v) = other.entries[i];
            let cur = self.get(k);
            proof {
                let pre = o.subrange(0, i as int);
                let post = o.subrange(0, i as int + 1);
                assert(post.drop_last() =~= pre);
                lemma_routes_of(pre);
                if routes_of(pre).contains_key(k) {
                    let j = choose|j: int| 0 <= j < pre.len() && pre[j].0 == k;
                    assert(o[j].0 == o[i as int].0);
                }
                assert(cur == route_at(a, k));
            }
            if cur < v {
                self.put(k, v);
                changed = true;
            } else if cur == 0 {
                self.put(k, 0);
            }
            proof {
                let pre = o.subrange(0, i as int);
                let post = o.subrange(0, i as int + 1);
                let pm = routes_of(pre);
                let qm = routes_of(post);
                assert(qm == pm.insert(k, v));
                assert(self@ =~= routes_join(a, qm));
                if routes_gain(a, qm) && !routes_gain(a, pm) {
                    let r = choose|r: Route| route_at(a, r) < route_at(qm, r);
                    assert(r == k);
                }
                if routes_gain(a, pm) {
                    let r = choose|r: Route| route_at(a, r) < route_at(pm, r);
                    assert(route_at(a, r) < route_at(qm, r));
                }
                if cur < v {
                    assert(route_at(a, k) < route_at(qm, k));
                }
            }
            i = i + 1;
        }
        proof {
            assert(o.subrange(0, o.len() as int) =~= o);
            use_type_invariant(&*self);
            lemma_routes_of(self.entries@);
        }
        changed
    }

    /// The amounts received by replica `r`, and the amounts it sent, each summed over all
    /// routes.
    pub fn flows(&self, r: ReplicaId) -> (f: (u128, u128))
        ensures
            f.0 == routes_total(routes_into(self@, r)),
            f.1 == routes_total(routes_from(self@, r)),
    {
        let ghost s = self.entries@;
        proof {
            use_type_invariant(self);
            assert(s.subrange(0, 0) =~= Seq::<(Route, u64)>::empty());
            assert(routes_into(routes_of(s.subrange(0, 0)), r) =~= Map::<Route, u64>::empty());
            assert(routes_from(routes_of(s.subrange(0, 0)), r) =~= Map::<Route, u64>::empty());
        }
        let mut inbound: u128 = 0;
        let mut outbound: u128 = 0;
        let mut i: usize = 0;
        while i < self.entries.len()
            invariant
                s == self.entries@,
                distinct(s),
                i <= s.len(),
                inbound <= i * 0xffff_ffff_ffff_ffffu128,
                outbound <= i * 0xffff_ffff_ffff_ffffu128,
                inbound == routes_total(routes_into(routes_of(s.subrange(0, i as int)), r)),
                outbound == routes_total(routes_from(routes_of(s.subrange(0, i as int)), r)),
            decreases s.len() - i,
        {
            let (k, v) = self.entries[i];
            proof {
                let pre = s.subrange(0, i as int);
                let post = s.subrange(0, i as int + 1);
                assert(post.drop_last() =~= pre);
                assert(distinct(pre));
                lemma_routes_of(pre);
                let pm = routes_of(pre);
                if pm.contains_key(k) {
                    let j = choose|j: int| 0 <= j < pre.len() && pre[j].0 == k;
                    assert(s[j].0 == s[i as int].0);
                }
                let qm = pm.insert(k, v);
                vstd::set_lib::lemma_set_subset_finite(pm.dom(), routes_into(pm, r).dom());
                vstd::set_lib::lemma_set_subset_finite(pm.dom(), routes_from(pm, r).dom());
                if k.1 == r {
                    assert(routes_into(qm, r) =~= routes_into(pm, r).insert(k, v));
                    lemma_routes_total_insert(routes_into(pm, r), k, v);
                } else {
                    assert(routes_into(qm, r) =~= routes_into(pm, r));
                }
                if k.0 == r {
                    assert(routes_from(qm, r) =~= routes_from(pm, r).insert(k, v));
                    lemma_routes_total_insert(routes_from(pm, r), k, v);
                } else {
                    assert(routes_from(qm, r) =~= routes_from(pm, r));
                }
                assert((i + 1) * 0xffff_ffff_ffff_ffffu128 <= 0xffff_ffff_ffff_ffffu128
                    * 0xffff_ffff_ffff_ffffu128) by (nonlinear_arith)
                    requires
                        i < 0xffff_ffff_ffff_ffffu128,
                ;
                assert(i * 0xffff_ffff_ffff_ffffu128 + 0xffff_ffff_ffff_ffffu128 == (i + 1)
                    * 0xffff_ffff_ffff_ffffu128) by (nonlinear_arith);
            }
            if k.1 == r {
                inbound = inbound + v as u128;
            }
            if k.0 == r {
                outbound = outbound + v as u128;
            }
            i = i + 1;
        }
        proof {
            assert(s.subrange(0, s.len() as int) =~= s);
        }
        (inbound, outbound)
    }
}

impl Clone for Transfers {
    fn clone(&self) -> (r: Self)
        ensures
            r@ == self@,
    {
        proof {
            use_type_invariant(self);
        }
        let mut e: Vec<(Route, u64)> = Vec::new();
        let mut i: usize = 0;
        while i < self.entries.len()
            invariant
                i <= self.entries@.len(),
                e@ == self.entries@.subrange(0, i as int),
            decreases self.entries@.len() - i,
        {
            e.push(self.entries[i]);
            i = i + 1;
            assert(e@ =~= self.entries@.subrange(0, i as int));
        }
        assert(e@ =~= self.entries@);
        Transfers { entries: e }
    }
}

} // verus!
