//! The lattice laws of the replicated types, stated over the models their operations use.
use vstd::prelude::*;
use crate::dotted_version::{dvv_compact, dvv_has};
use crate::keydots::dots_at;
use crate::kernel::{
    delta_applies, delta_inserted, delta_stripped, dropped_keys, dvv_gain, gained_keys,
    fresh_at, has_unseen, inserted_keys, kept_dot, kernel_merge, kernel_union, kernel_valid,
    strips_some,
};
use crate::lww_register::{Delta as Write, lww_merged, lww_replaces};
use crate::pncounter::pn_value;
use crate::transfers::{Route, routes_gain, routes_join};
use crate::vtime::{
    Dot, ReplicaId, clock_join, clock_le, clock_total, clock_wf, lemma_join_absorbs,
    lemma_join_associative, lemma_join_catches_up, lemma_join_commutative, lemma_join_idempotent,
};

verus! {

/// Merging a grow-only counter with itself reports no change and keeps its value.
pub proof fn gcounter_merge_idempotent(a: Map<ReplicaId, u64>)
    requires
        clock_wf(a),
    ensures
        clock_join(a, a) == a,
        !crate::vtime::clock_gains(a, a),
        clock_total(clock_join(a, a)) == clock_total(a),
{
    lemma_join_idempotent(a);
}

/// Two grow-only counters merged either way round have the same value.
pub proof fn gcounter_merge_commutative(a: Map<ReplicaId, u64>, b: Map<ReplicaId, u64>)
    ensures
        clock_total(clock_join(a, b)) == clock_total(clock_join(b, a)),
{
    lemma_join_commutative(a, b);
}

/// Three grow-only counters merged in either grouping have the same value.
pub proof fn gcounter_merge_associative(
    a: Map<ReplicaId, u64>,
    b: Map<ReplicaId, u64>,
    c: Map<ReplicaId, u64>,
)
    ensures
        clock_total(clock_join(clock_join(a, b), c)) == clock_total(clock_join(a, clock_join(b, c))),
{
    lemma_join_associative(a, b, c);
}

/// A replica `b` that has all of `a` but what `a`'s pending delta `d` carries reaches `a`'s
/// counts, and so its value, by folding in `d`.
pub proof fn gcounter_delta_faithful(
    a: Map<ReplicaId, u64>,
    d: Map<ReplicaId, u64>,
    b: Map<ReplicaId, u64>,
)
    requires
        clock_wf(a),
        clock_wf(b),
        clock_wf(d),
        clock_le(b, a),
        clock_le(d, a),
        forall|r: ReplicaId|
            crate::vtime::clock_at(d, r) == crate::vtime::clock_at(a, r) || crate::vtime::clock_at(b, r)
                == crate::vtime::clock_at(a, r),
    ensures
        clock_join(b, d) == a,
        clock_total(clock_join(b, d)) == clock_total(a),
{
    lemma_join_catches_up(a, b, d);
}

/// Folding in the same delta twice changes nothing the second time and reports no change.
pub proof fn gcounter_delta_idempotent(b: Map<ReplicaId, u64>, d: Map<ReplicaId, u64>)
    ensures
        clock_join(clock_join(b, d), d) == clock_join(b, d),
        !crate::vtime::clock_gains(clock_join(b, d), d),
{
    lemma_join_absorbs(b, d);
}

/// A replica that has all of a positive-negative counter but what its pending delta carries
/// reaches the counter's value by folding in that delta.
pub proof fn pncounter_delta_faithful(
    a_inc: Map<ReplicaId, u64>,
    a_dec: Map<ReplicaId, u64>,
    d_inc: Map<ReplicaId, u64>,
    d_dec: Map<ReplicaId, u64>,
    b_inc: Map<ReplicaId, u64>,
    b_dec: Map<ReplicaId, u64>,
)
    requires
        clock_wf(a_inc),
        clock_wf(a_dec),
        clock_wf(b_inc),
        clock_wf(b_dec),
        clock_wf(d_inc),
        clock_wf(d_dec),
        clock_le(b_inc, a_inc),
        clock_le(b_dec, a_dec),
        clock_le(d_inc, a_inc),
        clock_le(d_dec, a_dec),
        forall|r: ReplicaId|
            crate::vtime::clock_at(d_inc, r) == crate::vtime::clock_at(a_inc, r)
                || crate::vtime::clock_at(b_inc, r) == crate::vtime::clock_at(a_inc, r),
        forall|r: ReplicaId|
            crate::vtime::clock_at(d_dec, r) == crate::vtime::clock_at(a_dec, r)
                || crate::vtime::clock_at(b_dec, r) == crate::vtime::clock_at(a_dec, r),
    ensures
        pn_value(clock_join(b_inc, d_inc), clock_join(b_dec, d_dec)) == pn_value(a_inc, a_dec),
{
    lemma_join_catches_up(a_inc, b_inc, d_inc);
    lemma_join_catches_up(a_dec, b_dec, d_dec);
}

/// Two positive-negative counters merged either way round have the same value.
pub proof fn pncounter_merge_commutative(
    a_inc: Map<ReplicaId, u64>,
    a_dec: Map<ReplicaId, u64>,
    b_inc: Map<ReplicaId, u64>,
    b_dec: Map<ReplicaId, u64>,
)
    ensures
        pn_value(clock_join(a_inc, b_inc), clock_join(a_dec, b_dec)) == pn_value(
            clock_join(b_inc, a_inc),
            clock_join(b_dec, a_dec),
        ),
{
    lemma_join_commutative(a_inc, b_inc);
    lemma_join_commutative(a_dec, b_dec);
}

/// Three positive-negative counters merged in either grouping have the same value.
pub proof fn pncounter_merge_associative(
    a_inc: Map<ReplicaId, u64>,
    a_dec: Map<ReplicaId, u64>,
    b_inc: Map<ReplicaId, u64>,
    b_dec: Map<ReplicaId, u64>,
    c_inc: Map<ReplicaId, u64>,
    c_dec: Map<ReplicaId, u64>,
)
    ensures
        pn_value(
            clock_join(clock_join(a_inc, b_inc), c_inc),
            clock_join(clock_join(a_dec, b_dec), c_dec),
        ) == pn_value(
            clock_join(a_inc, clock_join(b_inc, c_inc)),
            clock_join(a_dec, clock_join(b_dec, c_dec)),
        ),
{
    lemma_join_associative(a_inc, b_inc, c_inc);
    lemma_join_associative(a_dec, b_dec, c_dec);
}

/// Merging a bounded counter's transfers with themselves reports no change and keeps them.
pub proof fn transfers_merge_idempotent(t: Map<Route, u64>)
    ensures
        routes_join(t, t) == t,
        !routes_gain(t, t),
{
    assert(routes_join(t, t) =~= t);
}

/// Transfers merge the same either way round and in either grouping.
pub proof fn transfers_merge_commutative_associative(
    a: Map<Route, u64>,
    b: Map<Route, u64>,
    c: Map<Route, u64>,
)
    ensures
        routes_join(a, b) == routes_join(b, a),
        routes_join(routes_join(a, b), c) == routes_join(a, routes_join(b, c)),
{
    assert(routes_join(a, b) =~= routes_join(b, a));
    assert(routes_join(routes_join(a, b), c) =~= routes_join(a, routes_join(b, c)));
}

/// Merging a last-write-wins register with its own write keeps it and reports no change.
pub proof fn lww_merge_idempotent<T>(a: Write<T>)
    ensures
        lww_merged(Some(a), a) == Some(a),
        !lww_replaces(a, a),
{
}

/// Two writes merged either way round leave the same value, unless they carry the same time
/// and replica with different values.
pub proof fn lww_merge_commutative<T>(a: Write<T>, b: Write<T>)
    requires
        a.timestamp == b.timestamp && a.replica_id == b.replica_id ==> a.value == b.value,
    ensures
        lww_merged(Some(a), b)->0.value == lww_merged(Some(b), a)->0.value,
{
}

/// Three writes merged in either grouping leave the same value, under the same proviso.
pub proof fn lww_merge_associative<T>(a: Write<T>, b: Write<T>, c: Write<T>)
    requires
        a.timestamp == b.timestamp && a.replica_id == b.replica_id ==> a.value == b.value,
        b.timestamp == c.timestamp && b.replica_id == c.replica_id ==> b.value == c.value,
        a.timestamp == c.timestamp && a.replica_id == c.replica_id ==> a.value == c.value,
    ensures
        lww_merged(lww_merged(Some(a), b), c)->0.value == lww_merged(
            Some(a),
            lww_merged(Some(b), c)->0,
        )->0.value,
{
}

/// Folding a register's write into a replica that holds nothing, or an older write, leaves
/// the register's value there; doing it again changes nothing.
pub proof fn lww_delta_faithful<T>(b: Option<Write<T>>, a: Write<T>)
    requires
        b is None || lww_replaces(b->0, a) || b == Some(a),
    ensures
        lww_merged(b, a) == Some(a),
        lww_merged(lww_merged(b, a), a) == lww_merged(b, a),
{
}

/// A dot of a merged kernel is one of the dots that stay.
pub proof fn lemma_merge_at<K>(
    a: Map<K, Set<Dot>>,
    sa: (Map<ReplicaId, u64>, Set<Dot>),
    b: Map<K, Set<Dot>>,
    sb: (Map<ReplicaId, u64>, Set<Dot>),
    k: K,
    d: Dot,
)
    ensures
        dots_at(kernel_merge(a, sa, b, sb), k).contains(d) == kept_dot(a, sa, b, sb, k, d),
{
}

/// Merging a valid kernel with itself keeps its entries, drops and gains nothing, and reports
/// no change.
pub proof fn kernel_merge_idempotent<K>(a: Map<K, Set<Dot>>, s: (Map<ReplicaId, u64>, Set<Dot>))
    requires
        kernel_valid(a, s),
    ensures
        kernel_merge(a, s, a, s) == a,
        gained_keys(a, s, a) == Set::<K>::empty(),
        dropped_keys(a, s, a, s) == Set::<K>::empty(),
        !dvv_gain(s, s),
{
    let m = kernel_merge(a, s, a, s);
    assert forall|k: K| #[trigger] m.contains_key(k) <==> a.contains_key(k) by {
        if a.contains_key(k) {
            let d = choose|d: Dot| a[k].contains(d);
            assert(kept_dot(a, s, a, s, k, d));
        }
    }
    assert forall|k: K| #[trigger] m.contains_key(k) implies m[k] =~= a[k] by {}
    assert(m =~= a);
    assert forall|k: K| !#[trigger] gained_keys(a, s, a).contains(k) by {
        assert(fresh_at(a, s, a, k) =~= Set::<Dot>::empty());
    }
    assert(gained_keys(a, s, a) =~= Set::<K>::empty());
    assert(dropped_keys(a, s, a, s) =~= Set::<K>::empty());
}

/// Two kernels merge to the same entries either way round.
pub proof fn kernel_merge_commutative<K>(
    a: Map<K, Set<Dot>>,
    sa: (Map<ReplicaId, u64>, Set<Dot>),
    b: Map<K, Set<Dot>>,
    sb: (Map<ReplicaId, u64>, Set<Dot>),
)
    ensures
        kernel_merge(a, sa, b, sb) == kernel_merge(b, sb, a, sa),
{
    let l = kernel_merge(a, sa, b, sb);
    let r = kernel_merge(b, sb, a, sa);
    assert forall|k: K| #[trigger] l.contains_key(k) <==> r.contains_key(k) by {
        if l.contains_key(k) {
            let d = choose|d: Dot| kept_dot(a, sa, b, sb, k, d);
            assert(kept_dot(b, sb, a, sa, k, d));
        }
        if r.contains_key(k) {
            let d = choose|d: Dot| kept_dot(b, sb, a, sa, k, d);
            assert(kept_dot(a, sa, b, sb, k, d));
        }
    }
    assert forall|k: K| #[trigger] l.contains_key(k) implies l[k] =~= r[k] by {}
    assert(l =~= r);
}

/// Three valid kernels merge to the same entries in either grouping, when each merged pair
/// has seen what both of its parts had seen.
pub proof fn kernel_merge_associative<K>(
    a: Map<K, Set<Dot>>,
    sa: (Map<ReplicaId, u64>, Set<Dot>),
    b: Map<K, Set<Dot>>,
    sb: (Map<ReplicaId, u64>, Set<Dot>),
    c: Map<K, Set<Dot>>,
    sc: (Map<ReplicaId, u64>, Set<Dot>),
    sab: (Map<ReplicaId, u64>, Set<Dot>),
    sbc: (Map<ReplicaId, u64>, Set<Dot>),
)
    requires
        kernel_valid(a, sa),
        kernel_valid(b, sb),
        kernel_valid(c, sc),
        forall|x: Dot| #[trigger] dvv_has(sab, x) == (dvv_has(sa, x) || dvv_has(sb, x)),
        forall|x: Dot| #[trigger] dvv_has(sbc, x) == (dvv_has(sb, x) || dvv_has(sc, x)),
    ensures
        kernel_merge(kernel_merge(a, sa, b, sb), sab, c, sc) == kernel_merge(
            a,
            sa,
            kernel_merge(b, sb, c, sc),
            sbc,
        ),
{
    let ab = kernel_merge(a, sa, b, sb);
    let bc = kernel_merge(b, sb, c, sc);
    let l = kernel_merge(ab, sab, c, sc);
    let r = kernel_merge(a, sa, bc, sbc);
    assert forall|k: K, d: Dot| #[trigger] kept_dot(ab, sab, c, sc, k, d) == kept_dot(a, sa, bc, sbc, k, d) by {
        lemma_merge_at(a, sa, b, sb, k, d);
        lemma_merge_at(b, sb, c, sc, k, d);
        assert(dvv_has(sab, d) == (dvv_has(sa, d) || dvv_has(sb, d)));
        assert(dvv_has(sbc, d) == (dvv_has(sb, d) || dvv_has(sc, d)));
        if dots_at(a, k).contains(d) {
            assert(dvv_has(sa, d));
        }
        if dots_at(b, k).contains(d) {
            assert(dvv_has(sb, d));
        }
        if dots_at(c, k).contains(d) {
            assert(dvv_has(sc, d));
        }
    }
    assert forall|k: K| #[trigger] l.contains_key(k) <==> r.contains_key(k) by {
        if l.contains_key(k) {
            let d = choose|d: Dot| kept_dot(ab, sab, c, sc, k, d);
            assert(kept_dot(a, sa, bc, sbc, k, d));
        }
        if r.contains_key(k) {
            let d = choose|d: Dot| kept_dot(a, sa, bc, sbc, k, d);
            assert(kept_dot(ab, sab, c, sc, k, d));
        }
    }
    assert forall|k: K| #[trigger] l.contains_key(k) implies l[k] =~= r[k] by {}
    assert(l =~= r);
}

/// A merge keeps a dot that one replica added and the other has not seen: an addition wins
/// over a removal that did not observe it.
pub proof fn kernel_merge_add_wins<K>(
    a: Map<K, Set<Dot>>,
    sa: (Map<ReplicaId, u64>, Set<Dot>),
    b: Map<K, Set<Dot>>,
    sb: (Map<ReplicaId, u64>, Set<Dot>),
    k: K,
    d: Dot,
)
    requires
        dots_at(a, k).contains(d),
        !dvv_has(sb, d),
    ensures
        kernel_merge(a, sa, b, sb).contains_key(k),
        kernel_merge(a, sa, b, sb)[k].contains(d),
{
    assert(kept_dot(a, sa, b, sb, k, d));
}

/// Folding the same delta into a kernel a second time leaves the entries of the first time and
/// reports no change.
pub proof fn kernel_delta_idempotent<K>(
    m: Map<K, Set<Dot>>,
    ins: Map<K, Set<Dot>>,
    rem: Set<Dot>,
    seen: (Map<ReplicaId, u64>, Set<Dot>),
)
    ensures
        ({
            let m1 = delta_stripped(delta_inserted(m, ins, seen, rem), rem);
            &&& delta_stripped(delta_inserted(m1, ins, seen, rem), rem) == m1
            &&& inserted_keys(m1, ins, seen, rem) == Set::<K>::empty()
            &&& !strips_some(m1, rem)
        }),
{
    let i1 = delta_inserted(m, ins, seen, rem);
    let m1 = delta_stripped(i1, rem);
    let i2 = delta_inserted(m1, ins, seen, rem);
    let m2 = delta_stripped(i2, rem);
    assert forall|k: K| #[trigger] m2.contains_key(k) <==> m1.contains_key(k) by {
        if m1.contains_key(k) {
            let d = choose|d: Dot| i1[k].contains(d) && !rem.contains(d);
            assert(i2[k].contains(d));
        }
        if m2.contains_key(k) {
            let d = choose|d: Dot| i2[k].contains(d) && !rem.contains(d);
            if delta_applies(ins, seen, rem, k) {
                assert(i1.contains_key(k));
                assert(i1[k].contains(d));
            } else {
                assert(m1.contains_key(k));
            }
        }
    }
    assert forall|k: K| #[trigger] m2.contains_key(k) implies m2[k] =~= m1[k] by {
        if delta_applies(ins, seen, rem, k) {
            assert(i1.contains_key(k));
        }
    }
    assert(m2 =~= m1);
    assert forall|k: K| !#[trigger] inserted_keys(m1, ins, seen, rem).contains(k) by {
        if delta_applies(ins, seen, rem, k) {
            assert(i1.contains_key(k));
            let d = choose|d: Dot| ins[k].contains(d) && !rem.contains(d);
            assert(i1[k].contains(d));
            assert(m1.contains_key(k));
            assert(ins[k].difference(rem).subset_of(dots_at(m1, k)));
        }
    }
    assert(inserted_keys(m1, ins, seen, rem) =~= Set::<K>::empty());
}

/// Two compact dotted versions that have seen the same dots are the same. Merging folds
/// together the dots both have seen and leaves a compact result, so merges in any order or
/// grouping, and a merge with itself, end in the same state.
pub proof fn dvv_same_dots_same_state(
    a: (Map<ReplicaId, u64>, Set<Dot>),
    b: (Map<ReplicaId, u64>, Set<Dot>),
)
    requires
        clock_wf(a.0),
        clock_wf(b.0),
        dvv_compact(a),
        dvv_compact(b),
        forall|x: Dot| #[trigger] dvv_has(a, x) == dvv_has(b, x),
    ensures
        a == b,
{
    crate::dotted_version::lemma_dvv_canonical(a, b);
}

/// Delta inserts join keywise by union, which does not depend on order or grouping.
pub proof fn kernel_union_commutative_associative<K>(
    a: Map<K, Set<Dot>>,
    b: Map<K, Set<Dot>>,
    c: Map<K, Set<Dot>>,
)
    ensures
        kernel_union(a, b) == kernel_union(b, a),
        kernel_union(kernel_union(a, b), c) == kernel_union(a, kernel_union(b, c)),
{
    assert forall|k: K| #[trigger] kernel_union(a, b).contains_key(k) implies kernel_union(a, b)[k]
        =~= kernel_union(b, a)[k] by {}
    assert(kernel_union(a, b) =~= kernel_union(b, a));
    let l = kernel_union(kernel_union(a, b), c);
    let r = kernel_union(a, kernel_union(b, c));
    assert forall|k: K| #[trigger] l.contains_key(k) implies l[k] =~= r[k] by {}
    assert(l =~= r);
}

/// A replica holding entries `e0` that has seen none of the inserts of a delta folds it in
/// to the entries `e0` would have with every insert added and every removal applied, which
/// are the entries of the replica that made the delta when `e0` is what it held at its last
/// hand-out.
pub proof fn kernel_delta_faithful<K>(
    e0: Map<K, Set<Dot>>,
    ins: Map<K, Set<Dot>>,
    rem: Set<Dot>,
    sb: (Map<ReplicaId, u64>, Set<Dot>),
)
    requires
        forall|k: K| #[trigger] ins.contains_key(k) ==> has_unseen(ins[k], sb),
    ensures
        delta_stripped(delta_inserted(e0, ins, sb, rem), rem) == delta_stripped(kernel_union(e0, ins), rem),
{
    let l = delta_stripped(delta_inserted(e0, ins, sb, rem), rem);
    let r = delta_stripped(kernel_union(e0, ins), rem);
    let i = delta_inserted(e0, ins, sb, rem);
    let u = kernel_union(e0, ins);
    assert forall|k: K| #[trigger] l.contains_key(k) <==> r.contains_key(k) by {
        if r.contains_key(k) {
            let d = choose|d: Dot| u[k].contains(d) && !rem.contains(d);
            if ins.contains_key(k) && ins[k].contains(d) {
                assert(delta_applies(ins, sb, rem, k));
                assert(i[k].contains(d));
            } else {
                assert(e0.contains_key(k));
                assert(i.contains_key(k));
                assert(i[k].contains(d));
            }
        }
        if l.contains_key(k) {
            let d = choose|d: Dot| i[k].contains(d) && !rem.contains(d);
            assert(u.contains_key(k));
            assert(u[k].contains(d));
        }
    }
    assert forall|k: K| #[trigger] l.contains_key(k) implies l[k] =~= r[k] by {
        if ins.contains_key(k) && !delta_applies(ins, sb, rem, k) {
            assert(ins[k].difference(rem) =~= Set::<Dot>::empty());
        }
    }
    assert(l =~= r);
}

} // verus!
