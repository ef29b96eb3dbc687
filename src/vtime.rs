//! Vector clocks and dots.
use vstd::prelude::*;

verus! {

/// Identifier of a replica.
pub type ReplicaId = u32;

/// A single event of one replica: the replica's identifier and its sequence number there.
#[derive(Debug, Clone, Copy, PartialEq, Eq, Structural, PartialOrd, Ord, Hash)]
pub struct Dot {
    pub replica: ReplicaId,
    pub seq: u64,
}

impl Dot {
    pub fn new(replica: ReplicaId, seq: u64) -> (d: Dot)
        ensures
            d.replica == replica,
            d.seq == seq,
    {
        Dot { replica, seq }
    }

    /// Replica that created this dot.
    pub fn id(&self) -> (r: ReplicaId)
        ensures
            r == self.replica,
    {
        self.replica
    }

    /// Sequence number of this dot within its replica.
    pub fn seq_nr(&self) -> (r: u64)
        ensures
            r == self.seq,
    {
        self.seq
    }
}

/// The counter that clock `m` holds for replica `r`; an absent replica counts as zero.
pub open spec fn clock_at(m: Map<ReplicaId, u64>, r: ReplicaId) -> u64 {
    if m.contains_key(r) {
        m[r]
    } else {
        0
    }
}

/// A clock map as the library keeps it: finitely many replicas, none of them at zero.
pub open spec fn clock_wf(m: Map<ReplicaId, u64>) -> bool {
    &&& m.dom().finite()
    &&& forall|r: ReplicaId| #[trigger] m.contains_key(r) ==> m[r] > 0
}

pub open spec fn max_u64(a: u64, b: u64) -> u64 {
    if a >= b {
        a
    } else {
        b
    }
}

pub open spec fn min_u64(a: u64, b: u64) -> u64 {
    if a <= b {
        a
    } else {
        b
    }
}

/// Componentwise maximum of two clocks.
pub open spec fn clock_join(a: Map<ReplicaId, u64>, b: Map<ReplicaId, u64>) -> Map<ReplicaId, u64> {
    Map::new(
        |r: ReplicaId| a.contains_key(r) || b.contains_key(r),
        |r: ReplicaId| max_u64(clock_at(a, r), clock_at(b, r)),
    )
}

/// Componentwise minimum of two clocks.
pub open spec fn clock_meet(a: Map<ReplicaId, u64>, b: Map<ReplicaId, u64>) -> Map<ReplicaId, u64> {
    Map::new(
        |r: ReplicaId| a.contains_key(r) && b.contains_key(r),
        |r: ReplicaId| min_u64(clock_at(a, r), clock_at(b, r)),
    )
}

/// `a` is at or below `b` at every replica.
pub open spec fn clock_le(a: Map<ReplicaId, u64>, b: Map<ReplicaId, u64>) -> bool {
    forall|r: ReplicaId| clock_at(a, r) <= clock_at(b, r)
}

/// The causal order of two clocks; `None` when they are concurrent.
pub open spec fn clock_cmp(a: Map<ReplicaId, u64>, b: Map<ReplicaId, u64>) -> Option<
    core::cmp::Ordering,
> {
    if clock_le(a, b) && clock_le(b, a) {
        Some(core::cmp::Ordering::Equal)
    } else if clock_le(a, b) {
        Some(core::cmp::Ordering::Less)
    } else if clock_le(b, a) {
        Some(core::cmp::Ordering::Greater)
    } else {
        None
    }
}

/// Clock `m` with the counter of `r` raised to `v` when `v` is higher.
pub open spec fn clock_raise(m: Map<ReplicaId, u64>, r: ReplicaId, v: u64) -> Map<ReplicaId, u64> {
    if v > clock_at(m, r) {
        m.insert(r, v)
    } else {
        m
    }
}

/// Whether some replica is strictly higher in `b` than in `a`.
pub open spec fn clock_gains(a: Map<ReplicaId, u64>, b: Map<ReplicaId, u64>) -> bool {
    exists|r: ReplicaId| clock_at(a, r) < clock_at(b, r)
}

spec fn clock_of(s: Seq<(ReplicaId, u64)>) -> Map<ReplicaId, u64>
    decreases s.len(),
{
    if s.len() == 0 {
        Map::empty()
    } else {
        clock_of(s.drop_last()).insert(s.last().0, s.last().1)
    }
}

spec fn canonical(s: Seq<(ReplicaId, u64)>) -> bool {
    &&& forall|i: int, j: int| 0 <= i < j < s.len() ==> s[i].0 < s[j].0
    &&& forall|i: int| 0 <= i < s.len() ==> s[i].1 > 0
}

proof fn lemma_clock_of(s: Seq<(ReplicaId, u64)>)
    requires
        canonical(s),
    ensures
        clock_wf(clock_of(s)),
        forall|i: int|
            0 <= i < s.len() ==> #[trigger] clock_of(s).contains_key(s[i].0) && clock_of(s)[s[i].0]
                == s[i].1,
        forall|k: ReplicaId| #[trigger]
            clock_of(s).contains_key(k) ==> exists|i: int| 0 <= i < s.len() && s[i].0 == k,
    decreases s.len(),
{
    if s.len() > 0 {
        let t = s.drop_last();
        assert(canonical(t));
        lemma_clock_of(t);
        let last = s.last();
        assert forall|i: int| 0 <= i < s.len() implies #[trigger] clock_of(s).contains_key(s[i].0)
            && clock_of(s)[s[i].0] == s[i].1 by {
            if i < s.len() - 1 {
                assert(t[i] == s[i]);
                assert(s[i].0 < last.0);
            }
        }
        assert forall|k: ReplicaId| #[trigger]
            clock_of(s).contains_key(k) implies exists|i: int| 0 <= i < s.len() && s[i].0 == k by {
            if k == last.0 {
                assert(s[s.len() - 1].0 == k);
            } else {
                let i = choose|i: int| 0 <= i < t.len() && t[i].0 == k;
                assert(s[i].0 == k);
            }
        }
    }
}

proof fn lemma_clock_of_char(s: Seq<(ReplicaId, u64)>, m: Map<ReplicaId, u64>)
    requires
        canonical(s),
        forall|i: int| 0 <= i < s.len() ==> #[trigger] m.contains_key(s[i].0) && m[s[i].0] == s[i].1,
        forall|k: ReplicaId| #[trigger] m.contains_key(k) ==> exists|i: int| 0 <= i < s.len() && s[i].0 == k,
    ensures
        clock_of(s) == m,
{
    lemma_clock_of(s);
    assert forall|k: ReplicaId| #[trigger] clock_of(s).contains_key(k) <==> m.contains_key(k) by {
        if clock_of(s).contains_key(k) {
            let i = choose|i: int| 0 <= i < s.len() && s[i].0 == k;
            assert(m.contains_key(s[i].0));
        }
        if m.contains_key(k) {
            let i = choose|i: int| 0 <= i < s.len() && s[i].0 == k;
            assert(clock_of(s).contains_key(s[i].0));
        }
    }
    assert forall|k: ReplicaId| #[trigger] clock_of(s).contains_key(k) implies clock_of(s)[k] == m[k] by {
        let i = choose|i: int| 0 <= i < s.len() && s[i].0 == k;
        assert(clock_of(s).contains_key(s[i].0));
        assert(m.contains_key(s[i].0));
    }
    assert(clock_of(s) =~= m);
}

/// Sum of all counters of a finite clock.
pub open spec fn clock_total(m: Map<ReplicaId, u64>) -> int
    decreases m.dom().len(),
{
    if m.dom().finite() && m.dom().len() > 0 {
        let r = m.dom().choose();
        m[r] + clock_total(m.remove(r))
    } else {
        0
    }
}

/// Taking any one replica out of a finite clock lowers its total by that replica's counter.
pub proof fn lemma_total_remove(m: Map<ReplicaId, u64>, k: ReplicaId)
    requires
        m.dom().finite(),
        m.contains_key(k),
    ensures
        clock_total(m) == m[k] + clock_total(m.remove(k)),
    decreases m.dom().len(),
{
    let r = m.dom().choose();
    if r != k {
        lemma_total_remove(m.remove(r), k);
        lemma_total_remove(m.remove(k), r);
        assert(m.remove(r).remove(k) =~= m.remove(k).remove(r));
    }
}

/// Joining a clock with itself leaves it as it is.
pub proof fn lemma_join_idempotent(a: Map<ReplicaId, u64>)
    requires
        clock_wf(a),
    ensures
        clock_join(a, a) == a,
        !clock_gains(a, a),
{
    assert(clock_join(a, a) =~= a);
}

/// The join of clocks does not depend on their order.
pub proof fn lemma_join_commutative(a: Map<ReplicaId, u64>, b: Map<ReplicaId, u64>)
    ensures
        clock_join(a, b) == clock_join(b, a),
{
    assert(clock_join(a, b) =~= clock_join(b, a));
}

/// The join of clocks does not depend on how it is grouped.
pub proof fn lemma_join_associative(
    a: Map<ReplicaId, u64>,
    b: Map<ReplicaId, u64>,
    c: Map<ReplicaId, u64>,
)
    ensures
        clock_join(clock_join(a, b), c) == clock_join(a, clock_join(b, c)),
{
    assert(clock_join(clock_join(a, b), c) =~= clock_join(a, clock_join(b, c)));
}

/// Joining the same clock a second time changes nothing and reports no gain.
pub proof fn lemma_join_absorbs(b: Map<ReplicaId, u64>, d: Map<ReplicaId, u64>)
    ensures
        clock_join(clock_join(b, d), d) == clock_join(b, d),
        !clock_gains(clock_join(b, d), d),
{
    assert(clock_join(clock_join(b, d), d) =~= clock_join(b, d));
}

/// A clock `b` that lags behind `a` only where `d` already carries `a`'s counter catches up
/// with `a` by joining `d`.
pub proof fn lemma_join_catches_up(
    a: Map<ReplicaId, u64>,
    b: Map<ReplicaId, u64>,
    d: Map<ReplicaId, u64>,
)
    requires
        clock_wf(a),
        clock_wf(b),
        clock_wf(d),
        clock_le(b, a),
        clock_le(d, a),
        forall|r: ReplicaId| clock_at(d, r) == clock_at(a, r) || clock_at(b, r) == clock_at(a, r),
    ensures
        clock_join(b, d) == a,
{
    assert forall|r: ReplicaId| #[trigger] clock_join(b, d).contains_key(r) <==> a.contains_key(r) by {
        assert(clock_at(d, r) == clock_at(a, r) || clock_at(b, r) == clock_at(a, r));
        assert(clock_at(b, r) <= clock_at(a, r));
        assert(clock_at(d, r) <= clock_at(a, r));
    }
    assert(clock_join(b, d) =~= a);
}

spec fn seq_total(s: Seq<(ReplicaId, u64)>) -> int
    decreases s.len(),
{
    if s.len() == 0 {
        0
    } else {
        seq_total(s.drop_last()) + s.last().1
    }
}

proof fn lemma_seq_total(s: Seq<(ReplicaId, u64)>)
    requires
        canonical(s),
    ensures
        seq_total(s) == clock_total(clock_of(s)),
    decreases s.len(),
{
    if s.len() > 0 {
        let t = s.drop_last();
        assert(canonical(t));
        lemma_seq_total(t);
        lemma_clock_of(t);
        lemma_clock_of(s);
        let k = s.last().0;
        if clock_of(t).contains_key(k) {
            let j = choose|j: int| 0 <= j < t.len() && t[j].0 == k;
            assert(s[j].0 < s[s.len() - 1].0);
        }
        lemma_total_remove(clock_of(s), k);
        assert(clock_of(s).remove(k) =~= clock_of(t));
    }
}

proof fn lemma_seq_total_prefix(s: Seq<(ReplicaId, u64)>, i: int)
    requires
        0 <= i <= s.len(),
    ensures
        seq_total(s.subrange(0, i)) <= seq_total(s),
    decreases s.len(),
{
    if i < s.len() {
        lemma_seq_total_prefix(s.drop_last(), i);
        assert(s.drop_last().subrange(0, i) =~= s.subrange(0, i));
    } else {
        assert(s.subrange(0, i) =~= s);
    }
}

/// Whether an entry for `id` stands at `p`, where `p` is the position of `id` in `s`.
proof fn lemma_found(s: Seq<(ReplicaId, u64)>, id: ReplicaId, p: usize)
    requires
        canonical(s),
        p <= s.len(),
        forall|j: int| 0 <= j < p ==> s[j].0 < id,
        p < s.len() ==> s[p as int].0 >= id,
    ensures
        clock_of(s).contains_key(id) <==> (p < s.len() && s[p as int].0 == id),
        p < s.len() && s[p as int].0 == id ==> clock_of(s)[id] == s[p as int].1,
{
    lemma_clock_of(s);
    if clock_of(s).contains_key(id) {
        let i = choose|i: int| 0 <= i < s.len() && s[i].0 == id;
        if i != p {
            assert(s[p as int].0 <= s[i].0);
        }
    }
}

/// Vector clock: a monotone counter per replica, partially ordered by causality.
#[derive(Debug, PartialEq, Eq)]
pub struct VTime {
    entries: Vec<(ReplicaId, u64)>,
}

impl View for VTime {
    type V = Map<ReplicaId, u64>;

    closed spec fn view(&self) -> Map<ReplicaId, u64> {
        clock_of(self.entries@)
    }
}

impl VTime {
    #[verifier::type_invariant]
    spec fn inv(self) -> bool {
        canonical(self.entries@)
    }

    pub fn new() -> (t: VTime)
        ensures
            t@ == Map::<ReplicaId, u64>::empty(),
            clock_wf(t@),
    {
        let t = VTime { entries: Vec::new() };
        proof {
            lemma_clock_of_char(t.entries@, Map::empty());
        }
        t
    }

    /// Index of the first entry whose replica is not below `id`.
    fn position(&self, id: ReplicaId) -> (p: usize)
        ensures
            p <= self.entries@.len(),
            forall|j: int| 0 <= j < p ==> self.entries@[j].0 < id,
            p < self.entries@.len() ==> self.entries@[p as int].0 >= id,
    {
        let mut i: usize = 0;
        while i < self.entries.len() && self.entries[i].0 < id
            invariant
                i <= self.entries@.len(),
                forall|j: int| 0 <= j < i ==> self.entries@[j].0 < id,
            decreases self.entries@.len() - i,
        {
            i = i + 1;
        }
        i
    }

    /// Returns the sequence number of a given replica.
    pub fn get(&self, id: &ReplicaId) -> (r: u64)
        ensures
            r == clock_at(self@, *id),
    {
        let p = self.position(*id);
        proof {
            use_type_invariant(self);
            lemma_found(self.entries@, *id, p);
        }
        if p < self.entries.len() && self.entries[p].0 == *id {
            self.entries[p].1
        } else {
            0
        }
    }

    /// Sets the counter of `id` to the positive value `v`.
    fn put(&mut self, id: ReplicaId, v: u64)
        requires
            v > 0,
        ensures
            final(self)@ == old(self)@.insert(id, v),
    {
        let p = self.position(id);
        let ghost s = self.entries@;
        proof {
            use_type_invariant(&*self);
            lemma_found(s, id, p);
            lemma_clock_of(s);
        }
        if p < self.entries.len() && self.entries[p].0 == id {
            let ghost t = s.update(p as int, (id, v));
            assert(canonical(t));
            let mut taken = VTime { entries: Vec::new() };
            core::mem::swap(self, &mut taken);
            let mut e = taken.entries;
            e.set(p, (id, v));
            *self = VTime { entries: e };
            proof {
                let m = clock_of(s).insert(id, v);
                assert forall|k: ReplicaId| #[trigger] m.contains_key(k) implies exists|i: int|
                    0 <= i < t.len() && t[i].0 == k by {
                    if k != id {
                        let i = choose|i: int| 0 <= i < s.len() && s[i].0 == k;
                        assert(t[i].0 == k);
                    } else {
                        assert(t[p as int].0 == k);
                    }
                }
                assert forall|i: int| 0 <= i < t.len() implies #[trigger] m.contains_key(t[i].0)
                    && m[t[i].0] == t[i].1 by {
                    if i != p {
                        assert(t[i] == s[i]);
                    }
                }
                lemma_clock_of_char(t, m);
            }
        } else {
            let ghost t = s.insert(p as int, (id, v));
            assert forall|i: int, j: int| 0 <= i < j < t.len() implies t[i].0 < t[j].0 by {
                if j < p {
                } else if j == p {
                } else if i < p {
                    assert(t[j] == s[j - 1]);
                    if p < s.len() {
                        assert(s[p as int].0 <= s[j - 1].0);
                    }
                } else if i == p {
                    assert(t[j] == s[j - 1]);
                    assert(s[p as int].0 <= s[j - 1].0);
                } else {
                    assert(t[j] == s[j - 1]);
                    assert(t[i] == s[i - 1]);
                }
            }
            assert(canonical(t));
            let mut taken = VTime { entries: Vec::new() };
            core::mem::swap(self, &mut taken);
            let mut e = taken.entries;
            e.insert(p, (id, v));
            *self = VTime { entries: e };
            proof {
                let m = clock_of(s).insert(id, v);
                assert forall|k: ReplicaId| #[trigger] m.contains_key(k) implies exists|i: int|
                    0 <= i < t.len() && t[i].0 == k by {
                    if k != id {
                        let i = choose|i: int| 0 <= i < s.len() && s[i].0 == k;
                        if i < p {
                            assert(t[i].0 == k);
                        } else {
                            assert(t[i + 1].0 == k);
                        }
                    } else {
                        assert(t[p as int].0 == k);
                    }
                }
                assert forall|i: int| 0 <= i < t.len() implies #[trigger] m.contains_key(t[i].0)
                    && m[t[i].0] == t[i].1 by {
                    if i < p {
                        assert(t[i] == s[i]);
                        assert(clock_of(s).contains_key(s[i].0));
                    } else if i > p {
                        assert(t[i] == s[i - 1]);
                        assert(clock_of(s).contains_key(s[i - 1].0));
                        assert(s[p as int].0 <= s[i - 1].0);
                    }
                }
                lemma_clock_of_char(t, m);
            }
        }
    }

    /// Increments the counter of replica `id` by `delta` and returns the dot of the new value;
    /// a zero `delta` changes nothing and returns the current value.
    pub fn inc_by(&mut self, id: ReplicaId, delta: u64) -> (d: Dot)
        requires
            clock_at(old(self)@, id) + delta <= u64::MAX,
        ensures
            final(self)@ == (if delta == 0 {
                old(self)@
            } else {
                old(self)@.insert(id, (clock_at(old(self)@, id) + delta) as u64)
            }),
            d == (Dot { replica: id, seq: (clock_at(old(self)@, id) + delta) as u64 }),
            clock_wf(final(self)@),
    {
        let cur = self.get(&id);
        if delta > 0 {
            self.put(id, cur + delta);
        }
        proof {
            use_type_invariant(&*self);
            lemma_clock_of(self.entries@);
        }
        Dot { replica: id, seq: cur + delta }
    }

    /// Increments the counter of replica `id` by one.
    pub fn inc(&mut self, id: ReplicaId) -> (d: Dot)
        requires
            clock_at(old(self)@, id) < u64::MAX,
        ensures
            final(self)@ == old(self)@.insert(id, (clock_at(old(self)@, id) + 1) as u64),
            d == (Dot { replica: id, seq: (clock_at(old(self)@, id) + 1) as u64 }),
            clock_wf(final(self)@),
    {
        self.inc_by(id, 1)
    }

    /// Raises the counter of the dot's replica to the dot's sequence number; returns whether
    /// it grew.
    pub fn set(&mut self, dot: Dot) -> (r: bool)
        ensures
            r == (dot.seq > clock_at(old(self)@, dot.replica)),
            final(self)@ == clock_raise(old(self)@, dot.replica, dot.seq),
            clock_wf(final(self)@),
    {
        let cur = self.get(&dot.replica);
        let r = dot.seq > cur;
        if r {
            self.put(dot.replica, dot.seq);
        }
        proof {
            use_type_invariant(&*self);
            lemma_clock_of(self.entries@);
        }
        r
    }

    /// Whether the clock holds no counter above zero.
    pub fn is_empty(&self) -> (r: bool)
        ensures
            r == (self@ == Map::<ReplicaId, u64>::empty()),
    {
        proof {
            use_type_invariant(self);
            lemma_clock_of(self.entries@);
            if self.entries@.len() > 0 {
                assert(self@.contains_key(self.entries@[0].0));
            } else {
                assert(self@ =~= Map::<ReplicaId, u64>::empty());
            }
        }
        self.entries.len() == 0
    }

    /// Whether the clock has already observed `dot`.
    pub fn contains(&self, dot: &Dot) -> (r: bool)
        ensures
            r == (clock_at(self@, dot.replica) >= dot.seq),
    {
        self.get(&dot.replica) >= dot.seq
    }

    /// Raises every counter to at least the one of `other`; returns whether anything grew.
    pub fn merge(&mut self, other: &VTime) -> (r: bool)
        ensures
            final(self)@ == clock_join(old(self)@, other@),
            r == clock_gains(old(self)@, other@),
            clock_wf(final(self)@),
    {
        let ghost a = self@;
        let ghost o = other.entries@;
        proof {
            use_type_invariant(other);
            use_type_invariant(&*self);
            lemma_clock_of(o);
            lemma_clock_of(self.entries@);
            assert(o.subrange(0, 0) =~= Seq::<(ReplicaId, u64)>::empty());
            assert(clock_join(a, Map::empty()) =~= a);
        }
        let mut changed = false;
        let mut i: usize = 0;
        while i < other.entries.len()
            invariant
                i <= o.len(),
                o == other.entries@,
                canonical(o),
                clock_wf(a),
                self@ == clock_join(a, clock_of(o.subrange(0, i as int))),
                changed == clock_gains(a, clock_of(o.subrange(0, i as int))),
            decreases o.len() - i,
        {
            let (k, v) = other.entries[i];
            let cur = self.get(&k);
            proof {
                let pre = o.subrange(0, i as int);
                let post = o.subrange(0, i as int + 1);
                assert(post.drop_last() =~= pre);
                assert(canonical(pre));
                lemma_clock_of(pre);
                if clock_of(pre).contains_key(k) {
                    let j = choose|j: int| 0 <= j < pre.len() && pre[j].0 == k;
                    assert(o[j].0 == o[i as int].0);
                }
                assert(cur == clock_at(a, k));
            }
            if cur < v {
                self.put(k, v);
                changed = true;
            }
            proof {
                let pre = o.subrange(0, i as int);
                let post = o.subrange(0, i as int + 1);
                let pm = clock_of(pre);
                let qm = clock_of(post);
                assert(qm == pm.insert(k, v));
                assert(self@ =~= clock_join(a, qm));
                if clock_gains(a, qm) && !clock_gains(a, pm) {
                    let r = choose|r: ReplicaId| clock_at(a, r) < clock_at(qm, r);
                    assert(r == k);
                }
                if clock_gains(a, pm) {
                    let r = choose|r: ReplicaId| clock_at(a, r) < clock_at(pm, r);
                    assert(clock_at(a, r) < clock_at(qm, r));
                }
                if cur < v {
                    assert(clock_at(a, k) < clock_at(qm, k));
                }
            }
            i = i + 1;
        }
        proof {
            assert(o.subrange(0, o.len() as int) =~= o);
            use_type_invariant(&*self);
            lemma_clock_of(self.entries@);
        }
        changed
    }

    /// Whether every counter of this clock is at or below the one of `other`.
    pub fn le(&self, other: &VTime) -> (r: bool)
        ensures
            r == clock_le(self@, other@),
    {
        let ghost s = self.entries@;
        proof {
            use_type_invariant(self);
            lemma_clock_of(s);
        }
        let mut i: usize = 0;
        while i < self.entries.len()
            invariant
                s == self.entries@,
                canonical(s),
                i <= s.len(),
                forall|j: int| 0 <= j < i ==> s[j].1 <= #[trigger] clock_at(other@, s[j].0),
            decreases s.len() - i,
        {
            proof {
                lemma_clock_of(s);
            }
            let (k, v) = self.entries[i];
            if v > other.get(&k) {
                proof {
                    assert(self@.contains_key(s[i as int].0));
                    assert(clock_at(self@, k) > clock_at(other@, k));
                }
                return false;
            }
            i = i + 1;
        }
        proof {
            lemma_clock_of(s);
            assert forall|r: ReplicaId| clock_at(self@, r) <= clock_at(other@, r) by {
                if self@.contains_key(r) {
                    let j = choose|j: int| 0 <= j < s.len() && s[j].0 == r;
                    assert(clock_of(s).contains_key(s[j].0));
                    assert(s[j].1 <= clock_at(other@, s[j].0));
                }
            }
        }
        true
    }

    /// Causal comparison: `None` when the clocks are concurrent.
    pub fn partial_cmp(&self, other: &VTime) -> (r: Option<core::cmp::Ordering>)
        ensures
            r == clock_cmp(self@, other@),
    {
        let below = self.le(other);
        let above = other.le(self);
        if below && above {
            Some(core::cmp::Ordering::Equal)
        } else if below {
            Some(core::cmp::Ordering::Less)
        } else if above {
            Some(core::cmp::Ordering::Greater)
        } else {
            None
        }
    }

    /// The componentwise minimum of two clocks.
    #[verifier::rlimit(30)]
    pub fn min(&self, other: &VTime) -> (r: VTime)
        ensures
            r@ == clock_meet(self@, other@),
            clock_wf(r@),
    {
        let ghost s = self.entries@;
        proof {
            use_type_invariant(self);
            use_type_invariant(other);
            lemma_clock_of(s);
            lemma_clock_of(other.entries@);
        }
        let mut e: Vec<(ReplicaId, u64)> = Vec::new();
        let mut i: usize = 0;
        while i < self.entries.len()
            invariant
                s == self.entries@,
                canonical(s),
                canonical(other.entries@),
                canonical(e@),
                i <= s.len(),
                forall|m: int| 0 <= m < e@.len() ==> exists|j: int| 0 <= j < i && s[j].0 == #[trigger] e@[m].0,
                forall|m: int|
                    0 <= m < e@.len() ==> #[trigger] e@[m].1 == min_u64(
                        clock_at(self@, e@[m].0),
                        clock_at(other@, e@[m].0),
                    ) && self@.contains_key(e@[m].0) && other@.contains_key(e@[m].0),
                forall|j: int|
                    0 <= j < i && other@.contains_key(#[trigger] s[j].0) ==> exists|m: int|
                        0 <= m < e@.len() && e@[m].0 == s[j].0,
            decreases s.len() - i,
        {
            let (k, v) = self.entries[i];
            let w = other.get(&k);
            proof {
                lemma_clock_of(s);
                lemma_clock_of(other.entries@);
                assert(clock_of(s).contains_key(s[i as int].0));
            }
            if w > 0 {
                let x = if v <= w { v } else { w };
                let ghost e0 = e@;
                e.push((k, x));
                proof {
                    assert forall|m: int| 0 <= m < e@.len() implies exists|j: int|
                        0 <= j < i + 1 && s[j].0 == #[trigger] e@[m].0 by {
                        if m < e0.len() {
                            assert(e@[m] == e0[m]);
                            let j = choose|j: int| 0 <= j < i && s[j].0 == e0[m].0;
                        } else {
                            assert(s[i as int].0 == e@[m].0);
                        }
                    }
                    assert forall|a: int, b: int| 0 <= a < b < e@.len() implies e@[a].0 < e@[b].0 by {
                        if b == e0.len() {
                            let j = choose|j: int| 0 <= j < i && s[j].0 == e0[a].0;
                            assert(s[j].0 < s[i as int].0);
                        } else {
                            assert(e@[a] == e0[a]);
                            assert(e@[b] == e0[b]);
                        }
                    }
                    assert forall|j: int|
                        0 <= j < i + 1 && other@.contains_key(#[trigger] s[j].0) implies exists|m: int|
                        0 <= m < e@.len() && e@[m].0 == s[j].0 by {
                        if j < i {
                            let m = choose|m: int| 0 <= m < e0.len() && e0[m].0 == s[j].0;
                            assert(e@[m] == e0[m]);
                        } else {
                            assert(e@[e0.len() as int].0 == s[j].0);
                        }
                    }
                }
            }
            i = i + 1;
        }
        let r = VTime { entries: e };
        proof {
            let mm = clock_meet(self@, other@);
            assert forall|k: ReplicaId| #[trigger] mm.contains_key(k) implies exists|m: int|
                0 <= m < e@.len() && e@[m].0 == k by {
                let j = choose|j: int| 0 <= j < s.len() && s[j].0 == k;
                assert(other@.contains_key(s[j].0));
            }
            lemma_clock_of_char(e@, mm);
            lemma_clock_of(e@);
        }
        r
    }

    /// The componentwise maximum of two clocks.
    pub fn max(&self, other: &VTime) -> (r: VTime)
        ensures
            r@ == clock_join(self@, other@),
            clock_wf(r@),
    {
        let mut r = self.clone();
        r.merge(other);
        r
    }

    /// The union of the replicas of both clocks in increasing order, each with its counter in
    /// this clock and in `other`.
    pub fn zip(&self, other: &VTime) -> (r: Vec<(ReplicaId, u64, u64)>)
        ensures
            forall|i: int, j: int| 0 <= i < j < r@.len() ==> r@[i].0 < r@[j].0,
            forall|i: int|
                0 <= i < r@.len() ==> #[trigger] r@[i].1 == clock_at(self@, r@[i].0) && r@[i].2
                    == clock_at(other@, r@[i].0),
            forall|k: ReplicaId|
                (self@.contains_key(k) || other@.contains_key(k)) <==> exists|i: int|
                    0 <= i < r@.len() && #[trigger] r@[i].0 == k,
    {
        let ghost a = self.entries@;
        let ghost b = other.entries@;
        proof {
            use_type_invariant(self);
            use_type_invariant(other);
        }
        let mut r: Vec<(ReplicaId, u64, u64)> = Vec::new();
        let mut i: usize = 0;
        let mut j: usize = 0;
        while i < self.entries.len() || j < other.entries.len()
            invariant
                a == self.entries@,
                b == other.entries@,
                canonical(a),
                canonical(b),
                i <= a.len(),
                j <= b.len(),
                forall|x: int, y: int| 0 <= x < y < r@.len() ==> r@[x].0 < r@[y].0,
                forall|m: int| 0 <= m < r@.len() && i < a.len() ==> r@[m].0 < a[i as int].0,
                forall|m: int| 0 <= m < r@.len() && j < b.len() ==> r@[m].0 < b[j as int].0,
                forall|m: int|
                    0 <= m < r@.len() ==> #[trigger] r@[m].1 == clock_at(clock_of(a), r@[m].0)
                        && r@[m].2 == clock_at(clock_of(b), r@[m].0),
                forall|x: int| 0 <= x < i ==> exists|m: int| 0 <= m < r@.len() && r@[m].0 == #[trigger] a[x].0,
                forall|y: int| 0 <= y < j ==> exists|m: int| 0 <= m < r@.len() && r@[m].0 == #[trigger] b[y].0,
                forall|m: int|
                    0 <= m < r@.len() ==> (exists|x: int| 0 <= x < a.len() && a[x].0 == #[trigger] r@[m].0)
                        || (exists|y: int| 0 <= y < b.len() && b[y].0 == r@[m].0),
            decreases a.len() - i + b.len() - j,
        {
            proof {
                lemma_clock_of(a);
                lemma_clock_of(b);
            }
            let ghost r0 = r@;
            if i < self.entries.len() && (j == other.entries.len() || self.entries[i].0 < other.entries[j].0) {
                let (k, v) = self.entries[i];
                proof {
                    if clock_of(b).contains_key(k) {
                        let y = choose|y: int| 0 <= y < b.len() && b[y].0 == k;
                        if y < j {
                            let m = choose|m: int| 0 <= m < r0.len() && r0[m].0 == b[y].0;
                        } else {
                            assert(b[j as int].0 <= b[y].0);
                        }
                    }
                    assert(clock_of(a).contains_key(a[i as int].0));
                }
                r.push((k, v, 0));
                i = i + 1;
                proof {
                    assert forall|x: int| 0 <= x < i implies exists|m: int| 0 <= m < r@.len() && r@[m].0 == #[trigger] a[x].0 by {
                        if x < i - 1 {
                            let m = choose|m: int| 0 <= m < r0.len() && r0[m].0 == a[x].0;
                            assert(r@[m] == r0[m]);
                        } else {
                            assert(r@[r0.len() as int].0 == a[x].0);
                        }
                    }
                    assert forall|y: int| 0 <= y < j implies exists|m: int| 0 <= m < r@.len() && r@[m].0 == #[trigger] b[y].0 by {
                        let m = choose|m: int| 0 <= m < r0.len() && r0[m].0 == b[y].0;
                        assert(r@[m] == r0[m]);
                    }
                    assert forall|m: int| 0 <= m < r@.len() && i < a.len() implies r@[m].0 < a[i as int].0 by {
                        if m < r0.len() {
                            assert(r0[m].0 < a[i - 1].0);
                        }
                    }
                    assert forall|m: int| 0 <= m < r@.len() implies (exists|x: int| 0 <= x < a.len() && a[x].0 == #[trigger] r@[m].0)
                        || (exists|y: int| 0 <= y < b.len() && b[y].0 == r@[m].0) by {
                        if m < r0.len() {
                            assert(r@[m] == r0[m]);
                        } else {
                            assert(a[i - 1].0 == r@[m].0);
                        }
                    }
                }
            } else if i < self.entries.len() && self.entries[i].0 == other.entries[j].0 {
                let (k, v) = self.entries[i];
                let w = other.entries[j].1;
                proof {
                    assert(clock_of(a).contains_key(a[i as int].0));
                    assert(clock_of(b).contains_key(b[j as int].0));
                }
                r.push((k, v, w));
                i = i + 1;
                j = j + 1;
                proof {
                    assert forall|x: int| 0 <= x < i implies exists|m: int| 0 <= m < r@.len() && r@[m].0 == #[trigger] a[x].0 by {
                        if x < i - 1 {
                            let m = choose|m: int| 0 <= m < r0.len() && r0[m].0 == a[x].0;
                            assert(r@[m] == r0[m]);
                        } else {
                            assert(r@[r0.len() as int].0 == a[x].0);
                        }
                    }
                    assert forall|y: int| 0 <= y < j implies exists|m: int| 0 <= m < r@.len() && r@[m].0 == #[trigger] b[y].0 by {
                        if y < j - 1 {
                            let m = choose|m: int| 0 <= m < r0.len() && r0[m].0 == b[y].0;
                            assert(r@[m] == r0[m]);
                        } else {
                            assert(r@[r0.len() as int].0 == b[y].0);
                        }
                    }
                    assert forall|m: int| 0 <= m < r@.len() && i < a.len() implies r@[m].0 < a[i as int].0 by {
                        if m < r0.len() {
                            assert(r0[m].0 < a[i - 1].0);
                        }
                    }
                    assert forall|m: int| 0 <= m < r@.len() && j < b.len() implies r@[m].0 < b[j as int].0 by {
                        if m < r0.len() {
                            assert(r0[m].0 < b[j - 1].0);
                        }
                    }
                    assert forall|m: int| 0 <= m < r@.len() implies (exists|x: int| 0 <= x < a.len() && a[x].0 == #[trigger] r@[m].0)
                        || (exists|y: int| 0 <= y < b.len() && b[y].0 == r@[m].0) by {
                        if m < r0.len() {
                            assert(r@[m] == r0[m]);
                        } else {
                            assert(a[i - 1].0 == r@[m].0);
                        }
                    }
                }
            } else {
                let (k, w) = other.entries[j];
                proof {
                    if clock_of(a).contains_key(k) {
                        let x = choose|x: int| 0 <= x < a.len() && a[x].0 == k;
                        if x < i {
                            let m = choose|m: int| 0 <= m < r0.len() && r0[m].0 == a[x].0;
                        } else {
                            assert(a[i as int].0 <= a[x].0);
                        }
                    }
                    assert(clock_of(b).contains_key(b[j as int].0));
                }
                r.push((k, 0, w));
                j = j + 1;
                proof {
                    assert forall|x: int| 0 <= x < i implies exists|m: int| 0 <= m < r@.len() && r@[m].0 == #[trigger] a[x].0 by {
                        let m = choose|m: int| 0 <= m < r0.len() && r0[m].0 == a[x].0;
                        assert(r@[m] == r0[m]);
                    }
                    assert forall|y: int| 0 <= y < j implies exists|m: int| 0 <= m < r@.len() && r@[m].0 == #[trigger] b[y].0 by {
                        if y < j - 1 {
                            let m = choose|m: int| 0 <= m < r0.len() && r0[m].0 == b[y].0;
                            assert(r@[m] == r0[m]);
                        } else {
                            assert(r@[r0.len() as int].0 == b[y].0);
                        }
                    }
                    assert forall|m: int| 0 <= m < r@.len() && j < b.len() implies r@[m].0 < b[j as int].0 by {
                        if m < r0.len() {
                            assert(r0[m].0 < b[j - 1].0);
                        }
                    }
                    assert forall|m: int| 0 <= m < r@.len() implies (exists|x: int| 0 <= x < a.len() && a[x].0 == #[trigger] r@[m].0)
                        || (exists|y: int| 0 <= y < b.len() && b[y].0 == r@[m].0) by {
                        if m < r0.len() {
                            assert(r@[m] == r0[m]);
                        } else {
                            assert(b[j - 1].0 == r@[m].0);
                        }
                    }
                }
            }
        }
        proof {
            lemma_clock_of(a);
            lemma_clock_of(b);
            assert forall|k: ReplicaId|
                (self@.contains_key(k) || other@.contains_key(k)) <==> exists|m: int|
                    0 <= m < r@.len() && #[trigger] r@[m].0 == k by {
                if self@.contains_key(k) {
                    let x = choose|x: int| 0 <= x < a.len() && a[x].0 == k;
                    let m = choose|m: int| 0 <= m < r@.len() && r@[m].0 == a[x].0;
                }
                if other@.contains_key(k) {
                    let y = choose|y: int| 0 <= y < b.len() && b[y].0 == k;
                    let m = choose|m: int| 0 <= m < r@.len() && r@[m].0 == b[y].0;
                }
                if exists|m: int| 0 <= m < r@.len() && #[trigger] r@[m].0 == k {
                    let m = choose|m: int| 0 <= m < r@.len() && #[trigger] r@[m].0 == k;
                    if exists|x: int| 0 <= x < a.len() && a[x].0 == r@[m].0 {
                        let x = choose|x: int| 0 <= x < a.len() && a[x].0 == r@[m].0;
                        assert(clock_of(a).contains_key(a[x].0));
                    } else {
                        let y = choose|y: int| 0 <= y < b.len() && b[y].0 == r@[m].0;
                        assert(clock_of(b).contains_key(b[y].0));
                    }
                }
            }
        }
        r
    }

    /// The replicas with a counter above zero, in increasing order, each with its counter.
    pub fn iter(&self) -> (r: Vec<(ReplicaId, u64)>)
        ensures
            forall|i: int, j: int| 0 <= i < j < r@.len() ==> r@[i].0 < r@[j].0,
            forall|i: int|
                0 <= i < r@.len() ==> #[trigger] self@.contains_key(r@[i].0) && self@[r@[i].0] == r@[i].1,
            forall|k: ReplicaId|
                #[trigger] self@.contains_key(k) ==> exists|i: int| 0 <= i < r@.len() && r@[i].0 == k,
    {
        proof {
            use_type_invariant(self);
            lemma_clock_of(self.entries@);
        }
        let mut e: Vec<(ReplicaId, u64)> = Vec::new();
        let mut i: usize = 0;
        while i < self.entries.len()
            invariant
                i <= self.entries@.len(),
                e@ == self.entries@.subrange(0, i as int),
            decreases self.entries@.len() - i,
        {
            e.push(self.entries[i]);
            i = i + 1;
            assert(e@ =~= self.entries@.subrange(0, i as int));
        }
        assert(e@ =~= self.entries@);
        e
    }

    /// Sum of all counters.
    pub fn sum(&self) -> (r: u64)
        requires
            clock_total(self@) <= u64::MAX,
        ensures
            r == clock_total(self@),
    {
        let ghost s = self.entries@;
        proof {
            use_type_invariant(self);
            lemma_seq_total(s);
            assert(s.subrange(0, 0) =~= Seq::<(ReplicaId, u64)>::empty());
        }
        let mut total: u64 = 0;
        let mut i: usize = 0;
        while i < self.entries.len()
            invariant
                s == self.entries@,
                i <= s.len(),
                seq_total(s) <= u64::MAX,
                total == seq_total(s.subrange(0, i as int)),
            decreases s.len() - i,
        {
            proof {
                assert(s.subrange(0, i as int + 1).drop_last() =~= s.subrange(0, i as int));
                lemma_seq_total_prefix(s, i as int + 1);
            }
            total = total + self.entries[i].1;
            i = i + 1;
        }
        proof {
            assert(s.subrange(0, s.len() as int) =~= s);
        }
        total
    }
}

impl Clone for VTime {
    fn clone(&self) -> (r: Self)
        ensures
            r@ == self@,
    {
        proof {
            use_type_invariant(self);
        }
        let mut e: Vec<(ReplicaId, u64)> = Vec::new();
        let mut i: usize = 0;
        while i < self.entries.len()
            invariant
                i <= self.entries@.len(),
                e@ == self.entries@.subrange(0, i as int),
            decreases self.entries@.len() - i,
        {
            e.push(self.entries[i]);
            i = i + 1;
            assert(e@ =~= self.entries@.subrange(0, i as int));
        }
        assert(e@ =~= self.entries@);
        VTime { entries: e }
    }
}

impl Default for VTime {
    fn default() -> (r: Self)
        ensures
            r@ == Map::<ReplicaId, u64>::empty(),
    {
        VTime::new()
    }
}

} // verus!
