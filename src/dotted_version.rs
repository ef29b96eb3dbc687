//! Dotted version vectors: a vector clock plus the detached dots seen out of order.
use vstd::prelude::*;
use crate::convergent::Convergent;
use crate::vtime::{Dot, ReplicaId, VTime, clock_at, clock_gains, clock_join, clock_le, clock_wf};

verus! {

/// Whether a dotted version with contiguous clock `v.0` and detached dots `v.1` has seen `d`.
pub open spec fn dvv_has(v: (Map<ReplicaId, u64>, Set<Dot>), d: Dot) -> bool {
    clock_at(v.0, d.replica) >= d.seq || v.1.contains(d)
}

/// No detached dot is covered by, or contiguous with, the clock.
pub open spec fn dvv_compact(v: (Map<ReplicaId, u64>, Set<Dot>)) -> bool {
    forall|d: Dot| #[trigger] v.1.contains(d) ==> d.seq > clock_at(v.0, d.replica) + 1
}

/// A dotted version as the library keeps it: a clock free of zero counters and no detached
/// dot covered by, or contiguous with, the clock.
pub open spec fn dvv_valid(v: (Map<ReplicaId, u64>, Set<Dot>)) -> bool {
    clock_wf(v.0) && dvv_compact(v)
}

/// The dotted version that has seen exactly the dots `a` or `b` has seen.
pub open spec fn dvv_join(
    a: (Map<ReplicaId, u64>, Set<Dot>),
    b: (Map<ReplicaId, u64>, Set<Dot>),
) -> (Map<ReplicaId, u64>, Set<Dot>) {
    choose|v: (Map<ReplicaId, u64>, Set<Dot>)|
        dvv_valid(v) && forall|x: Dot| #[trigger] dvv_has(v, x) == (dvv_has(a, x) || dvv_has(b, x))
}

/// Two valid dotted versions that have seen the same dots are the same.
pub proof fn lemma_dvv_canonical(a: (Map<ReplicaId, u64>, Set<Dot>), b: (Map<ReplicaId, u64>, Set<Dot>))
    requires
        dvv_valid(a),
        dvv_valid(b),
        forall|x: Dot| #[trigger] dvv_has(a, x) == dvv_has(b, x),
    ensures
        a == b,
{
    assert forall|r: ReplicaId| clock_at(a.0, r) == clock_at(b.0, r) by {
        let ca = clock_at(a.0, r);
        let cb = clock_at(b.0, r);
        if ca < cb {
            let x = Dot { replica: r, seq: (ca + 1) as u64 };
            assert(dvv_has(b, x));
            assert(dvv_has(a, x));
            assert(a.1.contains(x));
        }
        if cb < ca {
            let x = Dot { replica: r, seq: (cb + 1) as u64 };
            assert(dvv_has(a, x));
            assert(dvv_has(b, x));
            assert(b.1.contains(x));
        }
    }
    assert forall|r: ReplicaId| #[trigger] a.0.contains_key(r) <==> b.0.contains_key(r) by {
        assert(clock_at(a.0, r) == clock_at(b.0, r));
        if a.0.contains_key(r) {
            assert(a.0[r] > 0);
        }
        if b.0.contains_key(r) {
            assert(b.0[r] > 0);
        }
    }
    assert forall|r: ReplicaId| #[trigger] a.0.contains_key(r) implies a.0[r] == b.0[r] by {
        assert(clock_at(a.0, r) == clock_at(b.0, r));
    }
    assert(a.0 =~= b.0);
    assert forall|x: Dot| #[trigger] a.1.contains(x) <==> b.1.contains(x) by {
        if a.1.contains(x) {
            assert(dvv_has(a, x));
            assert(dvv_has(b, x));
        }
        if b.1.contains(x) {
            assert(dvv_has(b, x));
            assert(dvv_has(a, x));
        }
    }
    assert(a.1 =~= b.1);
}

spec fn uncovered(m: Map<ReplicaId, u64>, s: Seq<Dot>) -> nat
    decreases s.len(),
{
    if s.len() == 0 {
        0
    } else {
        uncovered(m, s.drop_last()) + if s.last().seq > clock_at(m, s.last().replica) {
            1nat
        } else {
            0nat
        }
    }
}

proof fn lemma_uncovered_shrinks(m1: Map<ReplicaId, u64>, m2: Map<ReplicaId, u64>, s: Seq<Dot>, i: int)
    requires
        clock_le(m1, m2),
        0 <= i <= s.len(),
        i < s.len() ==> s[i].seq > clock_at(m1, s[i].replica) && s[i].seq <= clock_at(
            m2,
            s[i].replica,
        ),
    ensures
        uncovered(m2, s) <= uncovered(m1, s),
        i < s.len() ==> uncovered(m2, s) < uncovered(m1, s),
    decreases s.len(),
{
    if s.len() > 0 {
        let t = s.drop_last();
        if i < s.len() - 1 {
            assert(t[i] == s[i]);
            lemma_uncovered_shrinks(m1, m2, t, i);
        } else {
            lemma_uncovered_shrinks(m1, m2, t, t.len() as int);
        }
        assert(clock_at(m1, s.last().replica) <= clock_at(m2, s.last().replica));
    }
}

/// A vector clock of the contiguous history of each replica, with the dots seen beyond it.
#[derive(Debug)]
pub struct DottedVersion {
    clock: VTime,
    cloud: Vec<Dot>,
}

impl View for DottedVersion {
    type V = (Map<ReplicaId, u64>, Set<Dot>);

    closed spec fn view(&self) -> (Map<ReplicaId, u64>, Set<Dot>) {
        (self.clock@, self.cloud@.to_set())
    }
}

/// Index of a detached dot that directly follows the clock, if any.
fn find_contiguous(clock: &VTime, cloud: &Vec<Dot>) -> (r: Option<usize>)
    ensures
        r is Some ==> r->0 < cloud@.len() && cloud@[r->0 as int].seq == clock_at(
            clock@,
            cloud@[r->0 as int].replica,
        ) + 1,
        r is None ==> forall|i: int|
            0 <= i < cloud@.len() ==> cloud@[i].seq != clock_at(clock@, #[trigger] cloud@[i].replica)
                + 1,
{
    let mut i: usize = 0;
    while i < cloud.len()
        invariant
            i <= cloud@.len(),
            forall|j: int|
                0 <= j < i ==> cloud@[j].seq != clock_at(clock@, #[trigger] cloud@[j].replica) + 1,
        decreases cloud@.len() - i,
    {
        let d = cloud[i];
        let cur = clock.get(&d.replica);
        if cur < u64::MAX && d.seq == cur + 1 {
            return Some(i);
        }
        i = i + 1;
    }
    None
}

/// Promotes contiguous detached dots into the clock until none is left, then drops the
/// detached dots the clock covers.
fn compress(clock: &mut VTime, cloud: &mut Vec<Dot>)
    requires
        clock_wf(old(clock)@),
        old(cloud)@.no_duplicates(),
    ensures
        forall|d: Dot|
            dvv_has((final(clock)@, final(cloud)@.to_set()), d) == dvv_has(
                (old(clock)@, old(cloud)@.to_set()),
                d,
            ),
        dvv_compact((final(clock)@, final(cloud)@.to_set())),
        clock_wf(final(clock)@),
        final(cloud)@.no_duplicates(),
        clock_le(old(clock)@, final(clock)@),
{
    let ghost c0 = clock@;
    loop
        invariant
            clock_wf(clock@),
            cloud@ == old(cloud)@,
            clock_le(c0, clock@),
            forall|d: Dot|
                dvv_has((clock@, cloud@.to_set()), d) == dvv_has((c0, cloud@.to_set()), d),
        ensures
            forall|j: int|
                0 <= j < cloud@.len() ==> cloud@[j].seq != clock_at(clock@, #[trigger] cloud@[j].replica)
                    + 1,
        decreases uncovered(clock@, cloud@),
    {
        match find_contiguous(clock, cloud) {
            Some(i) => {
                let d = cloud[i];
                let ghost before = clock@;
                clock.inc(d.replica);
                proof {
                    lemma_uncovered_shrinks(before, clock@, cloud@, i as int);
                    assert forall|x: Dot|
                        dvv_has((clock@, cloud@.to_set()), x) == dvv_has(
                            (before, cloud@.to_set()),
                            x,
                        ) by {
                        if x.replica == d.replica && x.seq == d.seq {
                            assert(cloud@.to_set().contains(cloud@[i as int]));
                        }
                    }
                }
            },
            None => {
                break;
            },
        }
    }
    let mut kept: Vec<Dot> = Vec::new();
    let mut i: usize = 0;
    while i < cloud.len()
        invariant
            i <= cloud@.len(),
            cloud@.no_duplicates(),
            kept@.no_duplicates(),
            forall|j: int|
                0 <= j < cloud@.len() ==> cloud@[j].seq != clock_at(clock@, #[trigger] cloud@[j].replica)
                    + 1,
            forall|x: Dot| #[trigger]
                kept@.contains(x) <==> exists|j: int|
                    0 <= j < i && cloud@[j] == x && x.seq > clock_at(clock@, x.replica),
        decreases cloud@.len() - i,
    {
        let d = cloud[i];
        let ghost k0 = kept@;
        if !clock.contains(&d) {
            proof {
                if kept@.contains(d) {
                    let j = choose|j: int| 0 <= j < i && cloud@[j] == d && d.seq > clock_at(clock@, d.replica);
                    assert(cloud@[j] == cloud@[i as int]);
                }
            }
            kept.push(d);
        }
        proof {
            assert forall|x: Dot| #[trigger]
                kept@.contains(x) <==> exists|j: int|
                    0 <= j < i + 1 && cloud@[j] == x && x.seq > clock_at(clock@, x.replica) by {
                if exists|j: int| 0 <= j < i + 1 && cloud@[j] == x && x.seq > clock_at(clock@, x.replica) {
                    let j = choose|j: int| 0 <= j < i + 1 && cloud@[j] == x && x.seq > clock_at(clock@, x.replica);
                    if j < i {
                        assert(k0.contains(x));
                        let m = choose|m: int| 0 <= m < k0.len() && k0[m] == x;
                        assert(kept@[m] == x);
                    } else {
                        assert(kept@[kept@.len() - 1] == x);
                    }
                }
                if kept@.contains(x) {
                    if k0.contains(x) {
                        let j = choose|j: int| 0 <= j < i && cloud@[j] == x && x.seq > clock_at(clock@, x.replica);
                    } else {
                        assert(x == d);
                        assert(cloud@[i as int] == x);
                    }
                }
            }
        }
        i = i + 1;
    }
    proof {
        let v = (clock@, kept@.to_set());
        assert forall|x: Dot| #[trigger] v.1.contains(x) implies x.seq > clock_at(v.0, x.replica) + 1 by {
            assert(kept@.contains(x));
            let j = choose|j: int| 0 <= j < cloud@.len() && cloud@[j] == x && x.seq > clock_at(clock@, x.replica);
            assert(cloud@[j].seq != clock_at(clock@, cloud@[j].replica) + 1);
        }
        assert forall|x: Dot|
            dvv_has(v, x) == dvv_has((clock@, cloud@.to_set()), x) by {
            if cloud@.to_set().contains(x) && x.seq > clock_at(clock@, x.replica) {
                let j = choose|j: int| 0 <= j < cloud@.len() && cloud@[j] == x;
                assert(kept@.contains(x));
            }
        }
    }
    *cloud = kept;
}

impl DottedVersion {
    #[verifier::type_invariant]
    spec fn inv(self) -> bool {
        &&& clock_wf(self.clock@)
        &&& self.cloud@.no_duplicates()
        &&& dvv_compact(self@)
    }

    pub fn new() -> (v: DottedVersion)
        ensures
            v@.0 == Map::<ReplicaId, u64>::empty(),
            v@.1 == Set::<Dot>::empty(),
    {
        let v = DottedVersion { clock: VTime::new(), cloud: Vec::new() };
        proof {
            assert(v.cloud@.to_set() =~= Set::<Dot>::empty());
        }
        v
    }

    /// Whether `dot` has been seen.
    pub fn contains(&self, dot: &Dot) -> (r: bool)
        ensures
            r == dvv_has(self@, *dot),
    {
        if self.clock.contains(dot) {
            return true;
        }
        let mut i: usize = 0;
        while i < self.cloud.len()
            invariant
                i <= self.cloud@.len(),
                forall|j: int| 0 <= j < i ==> self.cloud@[j] != *dot,
            decreases self.cloud@.len() - i,
        {
            if self.cloud[i] == *dot {
                proof {
                    assert(self.cloud@.to_set().contains(self.cloud@[i as int]));
                }
                return true;
            }
            i = i + 1;
        }
        false
    }

    /// Promotes detached dots contiguous with the clock into it and drops the detached dots
    /// the clock covers; the dots seen stay the same.
    pub fn compress(&mut self)
        ensures
            forall|x: Dot| #[trigger] dvv_has(final(self)@, x) == dvv_has(old(self)@, x),
            dvv_compact(final(self)@),
            clock_wf(final(self)@.0),
    {
        proof {
            use_type_invariant(&*self);
        }
        let mut taken = DottedVersion::new();
        core::mem::swap(self, &mut taken);
        let DottedVersion { mut clock, mut cloud } = taken;
        compress(&mut clock, &mut cloud);
        *self = DottedVersion { clock, cloud };
    }

    /// Advances the contiguous history of replica `key` by `delta` and returns the dot of its
    /// last step.
    pub fn inc_by(&mut self, key: ReplicaId, delta: u64) -> (d: Dot)
        requires
            clock_at(old(self)@.0, key) + delta <= u64::MAX,
        ensures
            d == (Dot { replica: key, seq: (clock_at(old(self)@.0, key) + delta) as u64 }),
            forall|x: Dot|
                #[trigger] dvv_has(final(self)@, x) == (dvv_has(old(self)@, x) || (x.replica == key && x.seq
                    <= d.seq)),
            dvv_compact(final(self)@),
            clock_wf(final(self)@.0),
    {
        proof {
            use_type_invariant(&*self);
        }
        let mut taken = DottedVersion::new();
        core::mem::swap(self, &mut taken);
        let DottedVersion { mut clock, mut cloud } = taken;
        let ghost c0 = clock@;
        let ghost s0 = cloud@;
        let d = clock.inc_by(key, delta);
        compress(&mut clock, &mut cloud);
        proof {
            assert forall|x: Dot|
                dvv_has((clock@, cloud@.to_set()), x) == (dvv_has((c0, s0.to_set()), x) || (
                x.replica == key && x.seq <= d.seq)) by {
            }
        }
        *self = DottedVersion { clock, cloud };
        d
    }

    /// Advances the contiguous history of replica `key` by one.
    pub fn inc(&mut self, key: ReplicaId) -> (d: Dot)
        requires
            clock_at(old(self)@.0, key) < u64::MAX,
        ensures
            d == (Dot { replica: key, seq: (clock_at(old(self)@.0, key) + 1) as u64 }),
            forall|x: Dot|
                #[trigger] dvv_has(final(self)@, x) == (dvv_has(old(self)@, x) || (x.replica == key && x.seq
                    <= d.seq)),
            dvv_compact(final(self)@),
            clock_wf(final(self)@.0),
    {
        self.inc_by(key, 1)
    }

    /// Folds in what another dotted version has seen; returns whether its clock was ahead
    /// somewhere or it held a detached dot this one did not.
    pub fn merge(&mut self, other: &DottedVersion) -> (r: bool)
        ensures
            forall|x: Dot| #[trigger] dvv_has(final(self)@, x) == (dvv_has(old(self)@, x) || dvv_has(other@, x)),
            dvv_compact(final(self)@),
            clock_wf(final(self)@.0),
            final(self)@ == dvv_join(old(self)@, other@),
            r == (clock_gains(old(self)@.0, other@.0) || exists|x: Dot|
                other@.1.contains(x) && !old(self)@.1.contains(x)),
    {
        proof {
            use_type_invariant(&*self);
            use_type_invariant(other);
        }
        let mut taken = DottedVersion::new();
        core::mem::swap(self, &mut taken);
        let DottedVersion { mut clock, mut cloud } = taken;
        let ghost a = (clock@, cloud@.to_set());
        let vec_changed = clock.merge(&other.clock);
        let mut cloud_changed = false;
        let mut i: usize = 0;
        while i < other.cloud.len()
            invariant
                i <= other.cloud@.len(),
                other.cloud@.no_duplicates(),
                cloud@.no_duplicates(),
                forall|x: Dot| #[trigger]
                    cloud@.to_set().contains(x) <==> (a.1.contains(x) || exists|j: int|
                        0 <= j < i && other.cloud@[j] == x),
                cloud_changed == exists|j: int| 0 <= j < i && !a.1.contains(other.cloud@[j]),
            decreases other.cloud@.len() - i,
        {
            let d = other.cloud[i];
            let mut present = false;
            let mut k: usize = 0;
            while k < cloud.len()
                invariant
                    k <= cloud@.len(),
                    present == exists|j: int| 0 <= j < k && cloud@[j] == d,
                decreases cloud@.len() - k,
            {
                if cloud[k] == d {
                    present = true;
                }
                k = k + 1;
            }
            let ghost c1 = cloud@;
            proof {
                if a.1.contains(d) {
                    assert(cloud@.to_set().contains(d));
                }
                if present {
                    let j = choose|j: int| 0 <= j < k && cloud@[j] == d;
                    assert(cloud@.to_set().contains(cloud@[j]));
                } else {
                    assert(!cloud@.contains(d));
                    assert(!cloud@.to_set().contains(d));
                }
                assert(present == a.1.contains(d)) by {
                    if exists|j: int| 0 <= j < i && other.cloud@[j] == d {
                        let j = choose|j: int| 0 <= j < i && other.cloud@[j] == d;
                        assert(other.cloud@[j] == other.cloud@[i as int]);
                    }
                }
            }
            if !present {
                cloud.push(d);
                cloud_changed = true;
            }
            proof {
                assert forall|x: Dot| #[trigger]
                    cloud@.to_set().contains(x) <==> (a.1.contains(x) || exists|j: int|
                        0 <= j < i + 1 && other.cloud@[j] == x) by {
                    if exists|j: int| 0 <= j < i + 1 && other.cloud@[j] == x {
                        let j = choose|j: int| 0 <= j < i + 1 && other.cloud@[j] == x;
                        if j == i {
                            if !present {
                                assert(cloud@[cloud@.len() - 1] == x);
                            }
                        } else {
                            assert(c1.to_set().contains(x));
                            assert(c1.contains(x));
                            let m = choose|m: int| 0 <= m < c1.len() && c1[m] == x;
                            assert(cloud@[m] == x);
                        }
                    }
                    if cloud@.to_set().contains(x) {
                        assert(cloud@.contains(x));
                        if !present && x == d {
                            assert(other.cloud@[i as int] == x);
                        } else {
                            assert(c1.contains(x));
                            assert(c1.to_set().contains(x));
                        }
                    }
                    if a.1.contains(x) {
                        assert(c1.to_set().contains(x));
                        assert(c1.contains(x));
                        let m = choose|m: int| 0 <= m < c1.len() && c1[m] == x;
                        assert(cloud@[m] == x);
                    }
                }
                if !a.1.contains(d) && !present {
                    assert(!a.1.contains(other.cloud@[i as int]));
                }
            }
            i = i + 1;
        }
        proof {
            assert(other@.1 =~= other.cloud@.to_set());
            if exists|x: Dot| other@.1.contains(x) && !a.1.contains(x) {
                let x = choose|x: Dot| other@.1.contains(x) && !a.1.contains(x);
                let j = choose|j: int| 0 <= j < other.cloud@.len() && other.cloud@[j] == x;
            }
        }
        let ghost merged = clock@;
        compress(&mut clock, &mut cloud);
        proof {
            assert forall|x: Dot| dvv_has((clock@, cloud@.to_set()), x) == (dvv_has(a, x) || dvv_has(other@, x)) by {
                if other@.1.contains(x) {
                    let j = choose|j: int| 0 <= j < other.cloud@.len() && other.cloud@[j] == x;
                }
            }
        }
        *self = DottedVersion { clock, cloud };
        proof {
            let v = self@;
            assert(dvv_valid(v));
            let j = dvv_join(old(self)@, other@);
            assert(dvv_valid(j) && forall|x: Dot| #[trigger] dvv_has(j, x) == (dvv_has(old(self)@, x) || dvv_has(other@, x)));
            lemma_dvv_canonical(v, j);
        }
        vec_changed || cloud_changed
    }
}

impl Clone for DottedVersion {
    fn clone(&self) -> (r: Self)
        ensures
            r@ == self@,
    {
        proof {
            use_type_invariant(self);
        }
        let mut cloud: Vec<Dot> = Vec::new();
        let mut i: usize = 0;
        while i < self.cloud.len()
            invariant
                i <= self.cloud@.len(),
                cloud@ == self.cloud@.subrange(0, i as int),
            decreases self.cloud@.len() - i,
        {
            cloud.push(self.cloud[i]);
            i = i + 1;
            assert(cloud@ =~= self.cloud@.subrange(0, i as int));
        }
        assert(cloud@ =~= self.cloud@);
        DottedVersion { clock: self.clock.clone(), cloud }
    }
}

impl Default for DottedVersion {
    fn default() -> (r: Self)
        ensures
            r@.0 == Map::<ReplicaId, u64>::empty(),
            r@.1 == Set::<Dot>::empty(),
    {
        DottedVersion::new()
    }
}

impl Convergent for DottedVersion {
    open spec fn merged(
        this: (Map<ReplicaId, u64>, Set<Dot>),
        other: (Map<ReplicaId, u64>, Set<Dot>),
    ) -> (Map<ReplicaId, u64>, Set<Dot>) {
        dvv_join(this, other)
    }

    fn merge(&mut self, other: &Self) -> bool {
        DottedVersion::merge(self, other)
    }
}

} // verus!
