//! The observed-remove kernel: keys kept alive by dots, with seen-versus-live bookkeeping.
use vstd::prelude::*;
use crate::convergent::{Convergent, DeltaConvergent, ReplicaState};
use crate::dots::{
    DotList, Key, dots_add, dots_contains, dots_get, dots_len, dots_new, dots_of,
};
use crate::dotted_version::{DottedVersion, dvv_compact, dvv_has, dvv_join};
use crate::keydots::{KeyDots, dots_at};
use crate::vtime::{Dot, ReplicaId, clock_at, clock_gains, clock_wf};

verus! {

/// A change of one key during a merge.
#[derive(Debug, Clone, Copy)]
pub enum MergeOp<T> {
    /// The key gained dots.
    Updated(T),
    /// The key was dropped.
    Removed(T),
}

/// Whether `op` reports key `k` as updated.
pub open spec fn reports_update<T: View>(op: MergeOp<T>, k: T::V) -> bool {
    match op {
        MergeOp::Updated(x) => x@ == k,
        MergeOp::Removed(_) => false,
    }
}

/// Whether `op` reports key `k` as removed.
pub open spec fn reports_removal<T: View>(op: MergeOp<T>, k: T::V) -> bool {
    match op {
        MergeOp::Updated(_) => false,
        MergeOp::Removed(x) => x@ == k,
    }
}

/// Whether every removal in `ev` comes after every update.
pub open spec fn updates_first<T>(ev: Seq<MergeOp<T>>) -> bool {
    forall|i: int, j: int|
        0 <= i < j < ev.len() && #[trigger] ev[i] is Removed ==> #[trigger] ev[j] is Removed
}

/// The views of the keys reported as updated.
pub open spec fn updated_keys<T: View>(ev: Seq<MergeOp<T>>) -> Set<T::V> {
    Set::new(|k: T::V| exists|i: int| 0 <= i < ev.len() && reports_update(ev[i], k))
}

/// The views of the keys reported as removed.
pub open spec fn removed_keys<T: View>(ev: Seq<MergeOp<T>>) -> Set<T::V> {
    Set::new(|k: T::V| exists|i: int| 0 <= i < ev.len() && reports_removal(ev[i], k))
}

/// Keywise union of the dots of two entry maps.
pub open spec fn kernel_union<K>(a: Map<K, Set<Dot>>, b: Map<K, Set<Dot>>) -> Map<K, Set<Dot>> {
    Map::new(|k: K| a.contains_key(k) || b.contains_key(k), |k: K| dots_at(a, k).union(dots_at(b, k)))
}

/// Whether dot `d` stays under key `k` when entries `a`, seen as `sa`, and entries `b`, seen
/// as `sb`, merge: both hold it, or one holds it and the other has not seen it.
pub open spec fn kept_dot<K>(
    a: Map<K, Set<Dot>>,
    sa: (Map<ReplicaId, u64>, Set<Dot>),
    b: Map<K, Set<Dot>>,
    sb: (Map<ReplicaId, u64>, Set<Dot>),
    k: K,
    d: Dot,
) -> bool {
    ||| (dots_at(a, k).contains(d) && dots_at(b, k).contains(d))
    ||| (dots_at(a, k).contains(d) && !dvv_has(sb, d))
    ||| (dots_at(b, k).contains(d) && !dvv_has(sa, d))
}

/// The entries after merging entries `a`, seen as `sa`, with entries `b`, seen as `sb`: each
/// key with the dots that stay; a key left without dots goes.
pub open spec fn kernel_merge<K>(
    a: Map<K, Set<Dot>>,
    sa: (Map<ReplicaId, u64>, Set<Dot>),
    b: Map<K, Set<Dot>>,
    sb: (Map<ReplicaId, u64>, Set<Dot>),
) -> Map<K, Set<Dot>> {
    Map::new(
        |k: K| exists|d: Dot| kept_dot(a, sa, b, sb, k, d),
        |k: K| Set::new(|d: Dot| kept_dot(a, sa, b, sb, k, d)),
    )
}

/// The dots of `b` under key `k` that `a` lacks there and `sa` has not seen.
pub open spec fn fresh_at<K>(
    a: Map<K, Set<Dot>>,
    sa: (Map<ReplicaId, u64>, Set<Dot>),
    b: Map<K, Set<Dot>>,
    k: K,
) -> Set<Dot> {
    Set::new(|d: Dot| dots_at(b, k).contains(d) && !dots_at(a, k).contains(d) && !dvv_has(sa, d))
}

/// Entries `a` with the fresh dots of `b` added.
pub open spec fn with_fresh<K>(
    a: Map<K, Set<Dot>>,
    sa: (Map<ReplicaId, u64>, Set<Dot>),
    b: Map<K, Set<Dot>>,
) -> Map<K, Set<Dot>> {
    Map::new(
        |k: K| a.contains_key(k) || exists|d: Dot| fresh_at(a, sa, b, k).contains(d),
        |k: K| dots_at(a, k).union(fresh_at(a, sa, b, k)),
    )
}

/// Keys that gain a dot when `b` merges into `a`, seen as `sa`.
pub open spec fn gained_keys<K>(
    a: Map<K, Set<Dot>>,
    sa: (Map<ReplicaId, u64>, Set<Dot>),
    b: Map<K, Set<Dot>>,
) -> Set<K> {
    Set::new(|k: K| exists|d: Dot| fresh_at(a, sa, b, k).contains(d))
}

/// Keys for which `b` holds a dot that `a` does not.
pub open spec fn union_gains<K>(a: Map<K, Set<Dot>>, b: Map<K, Set<Dot>>) -> Set<K> {
    Set::new(|k: K| b.contains_key(k) && !b[k].subset_of(dots_at(a, k)))
}

/// Whether a merge with `b`, seen as `sb`, takes a dot out of `a`: `b` saw it and does not hold
/// it.
pub open spec fn loses_dots<K>(
    a: Map<K, Set<Dot>>,
    b: Map<K, Set<Dot>>,
    sb: (Map<ReplicaId, u64>, Set<Dot>),
) -> bool {
    exists|k: K, d: Dot| dots_at(a, k).contains(d) && !dots_at(b, k).contains(d) && dvv_has(sb, d)
}

/// Keys of `a` that a merge with `b` drops.
pub open spec fn dropped_keys<K>(
    a: Map<K, Set<Dot>>,
    sa: (Map<ReplicaId, u64>, Set<Dot>),
    b: Map<K, Set<Dot>>,
    sb: (Map<ReplicaId, u64>, Set<Dot>),
) -> Set<K> {
    Set::new(|k: K| a.contains_key(k) && !kernel_merge(a, sa, b, sb).contains_key(k))
}

/// A kernel state as its operations keep it: every key has a dot, and every dot has been seen.
pub open spec fn kernel_valid<K>(a: Map<K, Set<Dot>>, s: (Map<ReplicaId, u64>, Set<Dot>)) -> bool {
    forall|k: K|
        #[trigger] a.contains_key(k) ==> (exists|d: Dot| a[k].contains(d)) && forall|d: Dot|
            a[k].contains(d) ==> dvv_has(s, d)
}

/// A kernel's state after merging `other` into `this`.
pub open spec fn kernel_merged<K>(this: ((Map<ReplicaId, u64>, Set<Dot>), Map<K, Set<Dot>>, Option<(Map<K, Set<Dot>>, Set<Dot>)>), other: ((Map<ReplicaId, u64>, Set<Dot>), Map<K, Set<Dot>>, Option<(Map<K, Set<Dot>>, Set<Dot>)>)) -> ((Map<ReplicaId, u64>, Set<Dot>), Map<K, Set<Dot>>, Option<(Map<K, Set<Dot>>, Set<Dot>)>) {
    (dvv_join(this.0, other.0), kernel_merge(this.1, this.0, other.1, other.0), this.2)
}

/// A kernel's state after folding delta `d` into `this`.
pub open spec fn kernel_delta_merged<K>(this: ((Map<ReplicaId, u64>, Set<Dot>), Map<K, Set<Dot>>, Option<(Map<K, Set<Dot>>, Set<Dot>)>), d: (Map<K, Set<Dot>>, Set<Dot>)) -> ((Map<ReplicaId, u64>, Set<Dot>), Map<K, Set<Dot>>, Option<(Map<K, Set<Dot>>, Set<Dot>)>) {
    (this.0, delta_stripped(delta_inserted(this.1, d.0, this.0, d.1), d.1), this.2)
}

/// Whether merging dotted version `b` into `a` reports a change.
pub open spec fn dvv_gain(a: (Map<ReplicaId, u64>, Set<Dot>), b: (Map<ReplicaId, u64>, Set<Dot>)) -> bool {
    clock_gains(a.0, b.0) || exists|x: Dot| b.1.contains(x) && !a.1.contains(x)
}

/// Whether some dot of `ds` has not been seen.
pub open spec fn has_unseen(ds: Set<Dot>, seen: (Map<ReplicaId, u64>, Set<Dot>)) -> bool {
    exists|d: Dot| ds.contains(d) && !dvv_has(seen, d)
}

/// Whether the insert of key `k` in a delta with inserts `ins` and removals `rem` applies: one
/// of its dots has not been seen, and one of them is not removed by the same delta.
pub open spec fn delta_applies<K>(
    ins: Map<K, Set<Dot>>,
    seen: (Map<ReplicaId, u64>, Set<Dot>),
    rem: Set<Dot>,
    k: K,
) -> bool {
    &&& ins.contains_key(k)
    &&& has_unseen(ins[k], seen)
    &&& exists|d: Dot| ins[k].contains(d) && !rem.contains(d)
}

/// Entries `a` after the inserts of a delta: an insert that applies adds its dots that the
/// delta does not remove.
pub open spec fn delta_inserted<K>(
    a: Map<K, Set<Dot>>,
    ins: Map<K, Set<Dot>>,
    seen: (Map<ReplicaId, u64>, Set<Dot>),
    rem: Set<Dot>,
) -> Map<K, Set<Dot>> {
    Map::new(
        |k: K| a.contains_key(k) || delta_applies(ins, seen, rem, k),
        |k: K|
            if delta_applies(ins, seen, rem, k) {
                dots_at(a, k).union(ins[k].difference(rem))
            } else {
                a[k]
            },
    )
}

/// Keys that gain a dot from the inserts of a delta.
pub open spec fn inserted_keys<K>(
    a: Map<K, Set<Dot>>,
    ins: Map<K, Set<Dot>>,
    seen: (Map<ReplicaId, u64>, Set<Dot>),
    rem: Set<Dot>,
) -> Set<K> {
    Set::new(
        |k: K| delta_applies(ins, seen, rem, k) && !ins[k].difference(rem).subset_of(dots_at(a, k)),
    )
}

/// Entries `m` with the removed dots `rem` stripped; a key left without dots goes.
pub open spec fn delta_stripped<K>(m: Map<K, Set<Dot>>, rem: Set<Dot>) -> Map<K, Set<Dot>> {
    Map::new(
        |k: K| m.contains_key(k) && exists|d: Dot| m[k].contains(d) && !rem.contains(d),
        |k: K| m[k].difference(rem),
    )
}

/// Keys of `m` that lose all their dots to `rem`.
pub open spec fn emptied_keys<K>(m: Map<K, Set<Dot>>, rem: Set<Dot>) -> Set<K> {
    Set::new(|k: K| m.contains_key(k) && !exists|d: Dot| m[k].contains(d) && !rem.contains(d))
}

/// Whether `rem` strips some dot of `m`.
pub open spec fn strips_some<K>(m: Map<K, Set<Dot>>, rem: Set<Dot>) -> bool {
    exists|k: K, d: Dot| m.contains_key(k) && m[k].contains(d) && rem.contains(d)
}

/// The dots of `ods` that `cur` lacks and `seen` has not seen.
fn dots_fresh(ods: &DotList, cur: &DotList, seen: &DottedVersion) -> (r: DotList)
    ensures
        dots_of(r).to_set() == Set::new(
            |d: Dot|
                dots_of(*ods).to_set().contains(d) && !dots_of(*cur).to_set().contains(d) && !dvv_has(
                    seen@,
                    d,
                ),
        ),
{
    let n = dots_len(ods);
    let mut out = dots_new();
    let mut i: usize = 0;
    proof {
        assert(dots_of(out).to_set() =~= Set::new(|d: Dot| dots_of(*ods).subrange(0, 0).to_set().contains(d) && !dots_of(*cur).to_set().contains(d) && !dvv_has(seen@, d)));
    }
    while i < n
        invariant
            n == dots_of(*ods).len(),
            i <= n,
            dots_of(out).to_set() == Set::new(|d: Dot| dots_of(*ods).subrange(0, i as int).to_set().contains(d) && !dots_of(*cur).to_set().contains(d) && !dvv_has(seen@, d)),
        decreases n - i,
    {
        let d = dots_get(ods, i);
        let ghost pre = dots_of(*ods).subrange(0, i as int);
        let ghost post = dots_of(*ods).subrange(0, i as int + 1);
        proof {
            lemma_prefix_step(dots_of(*ods), i as int);
        }
        if !dots_contains(cur, &d) && !seen.contains(&d) {
            dots_add(&mut out, d);
        }
        proof {
            assert(dots_of(out).to_set() =~= Set::new(|x: Dot| post.to_set().contains(x) && !dots_of(*cur).to_set().contains(x) && !dvv_has(seen@, x)));
        }
        i = i + 1;
    }
    proof {
        assert(dots_of(*ods).subrange(0, n as int) =~= dots_of(*ods));
    }
    out
}

/// The dots of `ds` that `keep` holds or `seen` has not seen.
fn dots_keep(ds: &DotList, keep: &DotList, seen: &DottedVersion) -> (r: DotList)
    ensures
        dots_of(r).to_set() == Set::new(
            |d: Dot|
                dots_of(*ds).to_set().contains(d) && (dots_of(*keep).to_set().contains(d) || !dvv_has(
                    seen@,
                    d,
                )),
        ),
{
    let n = dots_len(ds);
    let mut out = dots_new();
    let mut i: usize = 0;
    proof {
        assert(dots_of(out).to_set() =~= Set::new(|d: Dot| dots_of(*ds).subrange(0, 0).to_set().contains(d) && (dots_of(*keep).to_set().contains(d) || !dvv_has(seen@, d))));
    }
    while i < n
        invariant
            n == dots_of(*ds).len(),
            i <= n,
            dots_of(out).to_set() == Set::new(|d: Dot| dots_of(*ds).subrange(0, i as int).to_set().contains(d) && (dots_of(*keep).to_set().contains(d) || !dvv_has(seen@, d))),
        decreases n - i,
    {
        let d = dots_get(ds, i);
        let ghost post = dots_of(*ds).subrange(0, i as int + 1);
        proof {
            lemma_prefix_step(dots_of(*ds), i as int);
        }
        if dots_contains(keep, &d) || !seen.contains(&d) {
            dots_add(&mut out, d);
        }
        proof {
            assert(dots_of(out).to_set() =~= Set::new(|x: Dot| post.to_set().contains(x) && (dots_of(*keep).to_set().contains(x) || !dvv_has(seen@, x))));
        }
        i = i + 1;
    }
    proof {
        assert(dots_of(*ds).subrange(0, n as int) =~= dots_of(*ds));
    }
    out
}

/// Whether every dot of `ds` is in `other`.
fn dots_all_in(ds: &DotList, other: &DotList) -> (r: bool)
    ensures
        r == dots_of(*ds).to_set().subset_of(dots_of(*other).to_set()),
{
    let n = dots_len(ds);
    let mut i: usize = 0;
    while i < n
        invariant
            n == dots_of(*ds).len(),
            i <= n,
            forall|j: int| 0 <= j < i ==> dots_of(*other).contains(#[trigger] dots_of(*ds)[j]),
        decreases n - i,
    {
        let d = dots_get(ds, i);
        if !dots_contains(other, &d) {
            proof {
                assert(dots_of(*ds).to_set().contains(dots_of(*ds)[i as int]));
            }
            return false;
        }
        i = i + 1;
    }
    proof {
        assert forall|d: Dot| dots_of(*ds).to_set().contains(d) implies dots_of(*other).to_set().contains(d) by {
            let j = choose|j: int| 0 <= j < dots_of(*ds).len() && dots_of(*ds)[j] == d;
        }
    }
    true
}

proof fn lemma_prefix_step(s: Seq<Dot>, i: int)
    requires
        0 <= i < s.len(),
    ensures
        s.subrange(0, i + 1).to_set() == s.subrange(0, i).to_set().insert(s[i]),
{
    let pre = s.subrange(0, i);
    let post = s.subrange(0, i + 1);
    assert forall|x: Dot| #[trigger] post.to_set().contains(x) <==> pre.to_set().insert(s[i]).contains(x) by {
        if pre.contains(x) {
            let j = choose|j: int| 0 <= j < pre.len() && pre[j] == x;
            assert(post[j] == x);
        }
        if x == s[i] {
            assert(post[i] == x);
        }
        if post.contains(x) {
            let j = choose|j: int| 0 <= j < post.len() && post[j] == x;
            if j < i {
                assert(pre[j] == x);
            }
        }
    }
    assert(post.to_set() =~= pre.to_set().insert(s[i]));
}

/// Whether a dot of `ds` has not been seen by `seen`.
fn any_unseen(ds: &DotList, seen: &DottedVersion) -> (r: bool)
    ensures
        r == has_unseen(dots_of(*ds).to_set(), seen@),
{
    let n = dots_len(ds);
    let mut i: usize = 0;
    while i < n
        invariant
            n == dots_of(*ds).len(),
            i <= n,
            forall|j: int| 0 <= j < i ==> dvv_has(seen@, #[trigger] dots_of(*ds)[j]),
        decreases n - i,
    {
        let d = dots_get(ds, i);
        if !seen.contains(&d) {
            proof {
                assert(dots_of(*ds).to_set().contains(dots_of(*ds)[i as int]));
            }
            return true;
        }
        i = i + 1;
    }
    proof {
        assert forall|d: Dot| dots_of(*ds).to_set().contains(d) implies dvv_has(seen@, d) by {
            let j = choose|j: int| 0 <= j < dots_of(*ds).len() && dots_of(*ds)[j] == d;
        }
    }
    false
}

/// The dots of `ds` that are not in `rem`.
fn dots_minus(ds: &DotList, rem: &DotList) -> (r: DotList)
    ensures
        dots_of(r).to_set() == dots_of(*ds).to_set().difference(dots_of(*rem).to_set()),
{
    let n = dots_len(ds);
    let mut out = dots_new();
    let mut i: usize = 0;
    proof {
        assert(dots_of(out).to_set() =~= dots_of(*ds).subrange(0, 0).to_set().difference(
            dots_of(*rem).to_set(),
        ));
    }
    while i < n
        invariant
            n == dots_of(*ds).len(),
            i <= n,
            dots_of(out).to_set() == dots_of(*ds).subrange(0, i as int).to_set().difference(
                dots_of(*rem).to_set(),
            ),
        decreases n - i,
    {
        let d = dots_get(ds, i);
        let ghost pre = dots_of(*ds).subrange(0, i as int);
        let ghost post = dots_of(*ds).subrange(0, i as int + 1);
        proof {
            assert forall|x: Dot| #[trigger] post.to_set().contains(x) <==> pre.to_set().insert(
                d,
            ).contains(x) by {
                if pre.contains(x) {
                    let j = choose|j: int| 0 <= j < pre.len() && pre[j] == x;
                    assert(post[j] == x);
                }
                if x == d {
                    assert(post[i as int] == x);
                }
                if post.contains(x) {
                    let j = choose|j: int| 0 <= j < post.len() && post[j] == x;
                    if j < i {
                        assert(pre[j] == x);
                    }
                }
            }
        }
        if !dots_contains(rem, &d) {
            dots_add(&mut out, d);
        }
        proof {
            assert(dots_of(out).to_set() =~= post.to_set().difference(dots_of(*rem).to_set()));
        }
        i = i + 1;
    }
    proof {
        assert(dots_of(*ds).subrange(0, n as int) =~= dots_of(*ds));
    }
    out
}

/// Whether a dot of `ds` is in `rem`.
fn dots_meet(ds: &DotList, rem: &DotList) -> (r: bool)
    ensures
        r == exists|d: Dot| dots_of(*ds).to_set().contains(d) && dots_of(*rem).to_set().contains(d),
{
    let n = dots_len(ds);
    let mut i: usize = 0;
    while i < n
        invariant
            n == dots_of(*ds).len(),
            i <= n,
            forall|j: int| 0 <= j < i ==> !dots_of(*rem).contains(#[trigger] dots_of(*ds)[j]),
        decreases n - i,
    {
        let d = dots_get(ds, i);
        if dots_contains(rem, &d) {
            proof {
                assert(dots_of(*ds).to_set().contains(dots_of(*ds)[i as int]));
            }
            return true;
        }
        i = i + 1;
    }
    proof {
        assert forall|d: Dot| dots_of(*ds).to_set().contains(d) implies !dots_of(*rem).to_set().contains(d) by {
            let j = choose|j: int| 0 <= j < dots_of(*ds).len() && dots_of(*ds)[j] == d;
        }
    }
    false
}

pub proof fn lemma_push_update<T: View>(ev: Seq<MergeOp<T>>, k: T)
    ensures
        updated_keys(ev.push(MergeOp::Updated(k))) == updated_keys(ev).insert(k@),
        removed_keys(ev.push(MergeOp::Updated(k))) == removed_keys(ev),
{
    let e2 = ev.push(MergeOp::Updated(k));
    assert forall|q: T::V| #[trigger] updated_keys(e2).contains(q) <==> updated_keys(ev).insert(k@).contains(q) by {
        if updated_keys(ev).contains(q) {
            let i = choose|i: int| 0 <= i < ev.len() && reports_update(ev[i], q);
            assert(e2[i] == ev[i]);
        }
        if q == k@ {
            assert(reports_update(e2[ev.len() as int], q));
        }
        if updated_keys(e2).contains(q) {
            let i = choose|i: int| 0 <= i < e2.len() && reports_update(e2[i], q);
            if i < ev.len() {
                assert(e2[i] == ev[i]);
            }
        }
    }
    assert forall|q: T::V| #[trigger] removed_keys(e2).contains(q) <==> removed_keys(ev).contains(q) by {
        if removed_keys(ev).contains(q) {
            let i = choose|i: int| 0 <= i < ev.len() && reports_removal(ev[i], q);
            assert(e2[i] == ev[i]);
        }
        if removed_keys(e2).contains(q) {
            let i = choose|i: int| 0 <= i < e2.len() && reports_removal(e2[i], q);
            if i < ev.len() {
                assert(e2[i] == ev[i]);
            }
        }
    }
    assert(updated_keys(e2) =~= updated_keys(ev).insert(k@));
    assert(removed_keys(e2) =~= removed_keys(ev));
}

pub proof fn lemma_push_removal<T: View>(ev: Seq<MergeOp<T>>, k: T)
    ensures
        removed_keys(ev.push(MergeOp::Removed(k))) == removed_keys(ev).insert(k@),
        updated_keys(ev.push(MergeOp::Removed(k))) == updated_keys(ev),
{
    let e2 = ev.push(MergeOp::Removed(k));
    assert forall|q: T::V| #[trigger] removed_keys(e2).contains(q) <==> removed_keys(ev).insert(k@).contains(q) by {
        if removed_keys(ev).contains(q) {
            let i = choose|i: int| 0 <= i < ev.len() && reports_removal(ev[i], q);
            assert(e2[i] == ev[i]);
        }
        if q == k@ {
            assert(reports_removal(e2[ev.len() as int], q));
        }
        if removed_keys(e2).contains(q) {
            let i = choose|i: int| 0 <= i < e2.len() && reports_removal(e2[i], q);
            if i < ev.len() {
                assert(e2[i] == ev[i]);
            }
        }
    }
    assert forall|q: T::V| #[trigger] updated_keys(e2).contains(q) <==> updated_keys(ev).contains(q) by {
        if updated_keys(ev).contains(q) {
            let i = choose|i: int| 0 <= i < ev.len() && reports_update(ev[i], q);
            assert(e2[i] == ev[i]);
        }
        if updated_keys(e2).contains(q) {
            let i = choose|i: int| 0 <= i < e2.len() && reports_update(e2[i], q);
            if i < ev.len() {
                assert(e2[i] == ev[i]);
            }
        }
    }
    assert(removed_keys(e2) =~= removed_keys(ev).insert(k@));
    assert(updated_keys(e2) =~= updated_keys(ev));
}

/// Whether dot `d` of key `k` in entries `u` survives a merge with entries `b` seen as `sb`.
pub open spec fn stays<K>(
    u: Map<K, Set<Dot>>,
    b: Map<K, Set<Dot>>,
    sb: (Map<ReplicaId, u64>, Set<Dot>),
    k: K,
    d: Dot,
) -> bool {
    dots_at(u, k).contains(d) && (dots_at(b, k).contains(d) || !dvv_has(sb, d))
}

/// The key a report is about.
pub open spec fn op_key<T>(op: MergeOp<T>) -> T {
    match op {
        MergeOp::Updated(x) => x,
        MergeOp::Removed(x) => x,
    }
}

/// Whether no key is reported twice.
pub open spec fn reported_once<T: View>(ev: Seq<MergeOp<T>>) -> bool {
    forall|i: int, j: int| 0 <= i < j < ev.len() ==> #[trigger] op_key(ev[i])@ != #[trigger] op_key(ev[j])@
}

proof fn lemma_once_push<T: View>(ev: Seq<MergeOp<T>>, op: MergeOp<T>, k: T::V)
    requires
        reported_once(ev),
        op_key(op)@ == k,
        !updated_keys(ev).contains(k),
        !removed_keys(ev).contains(k),
    ensures
        reported_once(ev.push(op)),
{
    let e2 = ev.push(op);
    assert forall|i: int, j: int| 0 <= i < j < e2.len() implies #[trigger] op_key(e2[i])@ != #[trigger] op_key(e2[j])@ by {
        if j == ev.len() {
            assert(e2[i] == ev[i]);
            match ev[i] {
                MergeOp::Updated(x) => {
                    if x@ == k {
                        assert(reports_update(ev[i], k));
                    }
                },
                MergeOp::Removed(x) => {
                    if x@ == k {
                        assert(reports_removal(ev[i], k));
                    }
                },
            }
        } else {
            assert(e2[i] == ev[i]);
            assert(e2[j] == ev[j]);
        }
    }
}

/// A list of reports is empty exactly when it reports no key.
pub proof fn lemma_nonempty_reports<T: View>(ev: Seq<MergeOp<T>>)
    ensures
        ev.len() > 0 <==> (updated_keys(ev) != Set::<T::V>::empty() || removed_keys(ev) != Set::<T::V>::empty()),
{
    if ev.len() > 0 {
        match ev[0] {
            MergeOp::Updated(k) => {
                assert(reports_update(ev[0], k@));
                assert(updated_keys(ev).contains(k@));
            },
            MergeOp::Removed(k) => {
                assert(reports_removal(ev[0], k@));
                assert(removed_keys(ev).contains(k@));
            },
        }
    } else {
        assert(updated_keys(ev) =~= Set::<T::V>::empty());
        assert(removed_keys(ev) =~= Set::<T::V>::empty());
    }
}

proof fn lemma_stays_kept<K>(
    a: Map<K, Set<Dot>>,
    sa: (Map<ReplicaId, u64>, Set<Dot>),
    b: Map<K, Set<Dot>>,
    sb: (Map<ReplicaId, u64>, Set<Dot>),
)
    ensures
        forall|k: K, d: Dot| #[trigger] stays(with_fresh(a, sa, b), b, sb, k, d) == kept_dot(a, sa, b, sb, k, d),
{
    let u = with_fresh(a, sa, b);
    assert forall|k: K, d: Dot| #[trigger] stays(u, b, sb, k, d) == kept_dot(a, sa, b, sb, k, d) by {
        if dots_at(b, k).contains(d) && !dvv_has(sa, d) && !dots_at(a, k).contains(d) {
            assert(fresh_at(a, sa, b, k).contains(d));
            assert(u.contains_key(k));
        }
        if dots_at(a, k).contains(d) {
            assert(u.contains_key(k));
        }
    }
}

/// The changes of a kernel since its last hand-out: dots inserted per key, and dots removed.
#[derive(Debug)]
pub struct Delta<T: Key> {
    inserts: KeyDots<T>,
    removals: DotList,
}

impl<T: Key> View for Delta<T> {
    type V = (Map<T::V, Set<Dot>>, Set<Dot>);

    closed spec fn view(&self) -> (Map<T::V, Set<Dot>>, Set<Dot>) {
        (self.inserts@, dots_of(self.removals).to_set())
    }
}

impl<T: Key> Delta<T> {
    pub fn new() -> (d: Delta<T>)
        ensures
            d@.0 == Map::<T::V, Set<Dot>>::empty(),
            d@.1 == Set::<Dot>::empty(),
    {
        let d = Delta { inserts: KeyDots::new(), removals: dots_new() };
        proof {
            assert(dots_of(d.removals).to_set() =~= Set::<Dot>::empty());
        }
        d
    }

    /// Whether the delta inserts anything.
    pub fn has_inserts(&self) -> (r: bool)
        ensures
            r == (self@.0.dom().len() > 0),
    {
        self.inserts.len() > 0
    }

    /// Whether the delta removes anything.
    pub fn has_removals(&self) -> (r: bool)
        ensures
            r == (self@.1.len() > 0),
    {
        let n = dots_len(&self.removals);
        proof {
            if n > 0 {
                assert(dots_of(self.removals).to_set().contains(dots_of(self.removals)[0]));
                vstd::seq_lib::seq_to_set_is_finite(dots_of(self.removals));
            } else {
                assert(dots_of(self.removals).to_set() =~= Set::<Dot>::empty());
            }
        }
        n > 0
    }

    /// The keys the delta inserts dots under.
    pub fn keys(&self) -> (r: Vec<T>)
        ensures
            r@.len() == self@.0.dom().len(),
            forall|i: int| 0 <= i < r@.len() ==> #[trigger] self@.0.contains_key(r@[i]@),
            forall|k: T::V| #[trigger] self@.0.contains_key(k) ==> exists|i: int| 0 <= i < r@.len() && r@[i]@ == k,
            forall|i: int, j: int| 0 <= i < j < r@.len() ==> r@[i]@ != r@[j]@,
    {
        let n = self.inserts.len();
        let mut r: Vec<T> = Vec::new();
        let mut i: usize = 0;
        while i < n
            invariant
                n == self.inserts.keys().len(),
                i <= n,
                r@ == self.inserts.keys().subrange(0, i as int),
            decreases n - i,
        {
            r.push(self.inserts.key_at(i));
            i = i + 1;
            proof {
                assert(r@ =~= self.inserts.keys().subrange(0, i as int));
            }
        }
        proof {
            assert(r@ =~= self.inserts.keys());
        }
        r
    }

    /// Adds dot `d`, inserted under key `k`.
    fn insert(&mut self, k: T, d: Dot)
        ensures
            final(self)@.0 == old(self)@.0.insert(k@, dots_at(old(self)@.0, k@).insert(d)),
            final(self)@.1 == old(self)@.1,
    {
        self.inserts.add_dot(k, d);
    }

    /// Adds every dot of `ds` to the removals; returns whether any was new.
    fn remove(&mut self, ds: &DotList) -> (r: bool)
        ensures
            final(self)@.0 == old(self)@.0,
            final(self)@.1 == old(self)@.1.union(dots_of(*ds).to_set()),
            r == !dots_of(*ds).to_set().subset_of(old(self)@.1),
    {
        let ghost before = self@.1;
        let n = dots_len(ds);
        let mut changed = false;
        let mut i: usize = 0;
        while i < n
            invariant
                n == dots_of(*ds).len(),
                i <= n,
                self@.0 == old(self)@.0,
                self@.1 == before.union(dots_of(*ds).subrange(0, i as int).to_set()),
                changed == !dots_of(*ds).subrange(0, i as int).to_set().subset_of(before),
            decreases n - i,
        {
            let d = dots_get(ds, i);
            let ghost pre = dots_of(*ds).subrange(0, i as int);
            let ghost post = dots_of(*ds).subrange(0, i as int + 1);
            proof {
                assert forall|x: Dot| #[trigger] post.to_set().contains(x) <==> pre.to_set().insert(
                    d,
                ).contains(x) by {
                    if pre.contains(x) {
                        let j = choose|j: int| 0 <= j < pre.len() && pre[j] == x;
                        assert(post[j] == x);
                    }
                    if x == d {
                        assert(post[i as int] == x);
                    }
                    if post.contains(x) {
                        let j = choose|j: int| 0 <= j < post.len() && post[j] == x;
                        if j < i {
                            assert(pre[j] == x);
                        }
                    }
                }
                if post.to_set().subset_of(before) {
                    assert(pre.to_set().subset_of(before));
                    assert(post.to_set().contains(d));
                }
                if !pre.to_set().subset_of(before) {
                    let x = choose|x: Dot| pre.to_set().contains(x) && !before.contains(x);
                    assert(post.to_set().contains(x));
                }
                if !before.contains(d) {
                    assert(post.to_set().contains(d));
                }
            }
            proof {
                if self@.1.contains(d) && !before.contains(d) {
                    assert(pre.to_set().contains(d));
                    assert(!pre.to_set().subset_of(before));
                }
            }
            if !dots_contains(&self.removals, &d) {
                proof {
                    if before.contains(d) {
                        assert(self@.1.contains(d));
                    }
                }
                changed = true;
            }
            dots_add(&mut self.removals, d);
            proof {
                assert(self@.1 =~= before.union(post.to_set()));
            }
            i = i + 1;
        }
        proof {
            assert(dots_of(*ds).subrange(0, n as int) =~= dots_of(*ds));
        }
        changed
    }

    /// Folds in another delta: inserts join keywise, removals unite.
    pub fn merge(&mut self, other: &Delta<T>) -> (r: bool)
        ensures
            final(self)@.0 == kernel_union(old(self)@.0, other@.0),
            final(self)@.1 == old(self)@.1.union(other@.1),
            r == (union_gains(old(self)@.0, other@.0) != Set::<T::V>::empty() || !other@.1.subset_of(
                old(self)@.1,
            )),
    {
        let ghost a = self@.0;
        let ghost b = other@.0;
        let ghost bk = other.inserts.keys();
        let n = other.inserts.len();
        let mut inserts_changed = false;
        let mut i: usize = 0;
        proof {
            let none_yet = Set::<T::V>::new(|k: T::V| exists|j: int| 0 <= j < 0 && bk[j]@ == k);
            assert(none_yet =~= Set::<T::V>::empty());
            assert forall|k: T::V| #[trigger] a.contains_key(k) implies dots_at(a, k).union(
                dots_at(b.restrict(none_yet), k),
            ) =~= a[k] by {}
            assert(kernel_union(a, b.restrict(none_yet)) =~= a);
            assert(union_gains(a, b.restrict(none_yet)) =~= Set::<T::V>::empty());
        }
        while i < n
            invariant
                n == bk.len(),
                i <= n,
                bk == other.inserts.keys(),
                b == other@.0,
                forall|x: int| 0 <= x < bk.len() ==> #[trigger] b.contains_key(bk[x]@),
                forall|k: T::V| #[trigger] b.contains_key(k) ==> exists|x: int| 0 <= x < bk.len() && bk[x]@ == k,
                forall|x: int, y: int| 0 <= x < y < bk.len() ==> bk[x]@ != bk[y]@,
                self@.1 == old(self)@.1,
                self@.0 == kernel_union(a, b.restrict(Set::new(|k: T::V| exists|j: int| 0 <= j < i && bk[j]@ == k))),
                inserts_changed == (union_gains(a, b.restrict(Set::new(|k: T::V| exists|j: int| 0 <= j < i && bk[j]@ == k))) != Set::<T::V>::empty()),
            decreases n - i,
        {
            let (k, ds) = other.inserts.entry_at(i);
            let ghost pre = Set::new(|q: T::V| exists|j: int| 0 <= j < i && bk[j]@ == q);
            let ghost post = Set::new(|q: T::V| exists|j: int| 0 <= j < i + 1 && bk[j]@ == q);
            let ghost cur = self@.0;
            let added = self.inserts.add_dots(k, &ds);
            proof {
                assert(!pre.contains(k@)) by {
                    if pre.contains(k@) {
                        let j = choose|j: int| 0 <= j < i && bk[j]@ == k@;
                    }
                }
                assert(post =~= pre.insert(k@));
                assert(dots_at(cur, k@) == dots_at(a, k@));
                assert(self@.0 =~= kernel_union(a, b.restrict(post)));
                let g0 = union_gains(a, b.restrict(pre));
                let g1 = union_gains(a, b.restrict(post));
                assert(g1 =~= if added { g0.insert(k@) } else { g0 });
                if added {
                    assert(g1.contains(k@));
                }
            }
            if added {
                inserts_changed = true;
            }
            i = i + 1;
        }
        proof {
            let pall = Set::new(|k: T::V| exists|j: int| 0 <= j < n && bk[j]@ == k);
            assert(b.restrict(pall) =~= b);
        }
        let removals_changed = self.remove(&other.removals);
        inserts_changed || removals_changed
    }
}

impl<T: Key> Clone for Delta<T> {
    fn clone(&self) -> (r: Self)
        ensures
            r@ == self@,
    {
        Delta { inserts: self.inserts.clone(), removals: crate::dots::dots_clone(&self.removals) }
    }
}

impl<T: Key> Convergent for Delta<T> {
    open spec fn merged(this: Self::V, other: Self::V) -> Self::V {
        (kernel_union(this.0, other.0), this.1.union(other.1))
    }

    fn merge(&mut self, other: &Self) -> bool {
        Delta::merge(self, other)
    }
}

/// The pending changes as a delta model; nothing pending reads as the empty delta.
pub open spec fn pending_delta<K>(p: Option<(Map<K, Set<Dot>>, Set<Dot>)>) -> (Map<K, Set<Dot>>, Set<Dot>) {
    match p {
        Some(d) => d,
        None => (Map::empty(), Set::empty()),
    }
}

/// All dots of all keys of `m`.
pub open spec fn all_dots<K>(m: Map<K, Set<Dot>>) -> Set<Dot> {
    Set::new(|d: Dot| exists|k: K| m.contains_key(k) && m[k].contains(d))
}

/// Keys kept alive by dots, with what has been seen and what changed since the last hand-out.
#[derive(Debug)]
pub struct Kernel<T: Key> {
    seen: DottedVersion,
    entries: KeyDots<T>,
    delta: Option<Delta<T>>,
}

impl<T: Key> View for Kernel<T> {
    /// What has been seen, the live dots of each key, and the pending changes.
    type V = (
        (Map<ReplicaId, u64>, Set<Dot>),
        Map<T::V, Set<Dot>>,
        Option<(Map<T::V, Set<Dot>>, Set<Dot>)>,
    );

    closed spec fn view(&self) -> Self::V {
        (
            self.seen@,
            self.entries@,
            match self.delta {
                Some(d) => Some(d@),
                None => None,
            },
        )
    }
}

impl<T: Key> Kernel<T> {
    pub fn new() -> (k: Kernel<T>)
        ensures
            k@.0.0 == Map::<ReplicaId, u64>::empty(),
            k@.0.1 == Set::<Dot>::empty(),
            k@.1 == Map::<T::V, Set<Dot>>::empty(),
            k@.2 is None,
    {
        Kernel { seen: DottedVersion::new(), entries: KeyDots::new(), delta: None }
    }

    /// Files `value` under a fresh dot of replica `id` and returns that dot.
    pub fn insert(&mut self, id: ReplicaId, value: T) -> (d: Dot)
        requires
            clock_at(old(self)@.0.0, id) < u64::MAX,
        ensures
            d == (Dot { replica: id, seq: (clock_at(old(self)@.0.0, id) + 1) as u64 }),
            forall|x: Dot|
                #[trigger] dvv_has(final(self)@.0, x) == (dvv_has(old(self)@.0, x) || (x.replica == id && x.seq
                    <= d.seq)),
            dvv_compact(final(self)@.0),
            clock_wf(final(self)@.0.0),
            final(self)@.1 == old(self)@.1.insert(value@, dots_at(old(self)@.1, value@).insert(d)),
            final(self)@.2 == Some(
                (
                    pending_delta(old(self)@.2).0.insert(
                        value@,
                        dots_at(pending_delta(old(self)@.2).0, value@).insert(d),
                    ),
                    pending_delta(old(self)@.2).1,
                ),
            ),
    {
        let d = self.seen.inc(id);
        self.entries.add_dot(value, d);
        let mut delta = match self.delta.take() {
            Some(x) => x,
            None => Delta::new(),
        };
        delta.insert(value, d);
        self.delta = Some(delta);
        d
    }

    /// Drops `value`; its dots join the pending removals.
    pub fn remove(&mut self, value: &T)
        ensures
            final(self)@.0 == old(self)@.0,
            final(self)@.1 == old(self)@.1.remove(value@),
            final(self)@.2 == Some(
                (
                    pending_delta(old(self)@.2).0,
                    pending_delta(old(self)@.2).1.union(dots_at(old(self)@.1, value@)),
                ),
            ),
    {
        let dots = match self.entries.take(value) {
            Some(l) => l,
            None => {
                let l = dots_new();
                proof {
                    assert(dots_of(l).to_set() =~= Set::<Dot>::empty());
                }
                l
            },
        };
        let mut delta = match self.delta.take() {
            Some(x) => x,
            None => Delta::new(),
        };
        delta.remove(&dots);
        self.delta = Some(delta);
    }

    /// Drops every key; all their dots join the pending removals.
    pub fn clear(&mut self)
        ensures
            final(self)@.0 == old(self)@.0,
            final(self)@.1 == Map::<T::V, Set<Dot>>::empty(),
            final(self)@.2 == Some(
                (
                    pending_delta(old(self)@.2).0,
                    pending_delta(old(self)@.2).1.union(all_dots(old(self)@.1)),
                ),
            ),
    {
        let ghost m = self.entries@;
        let ghost ks = self.entries.keys();
        let n = self.entries.len();
        let mut all = dots_new();
        let mut i: usize = 0;
        proof {
            assert(dots_of(all).to_set() =~= Set::<Dot>::empty());
        }
        while i < n
            invariant
                n == ks.len(),
                ks == self.entries.keys(),
                m == self.entries@,
                i <= n,
                forall|x: int| 0 <= x < ks.len() ==> #[trigger] m.contains_key(ks[x]@),
                forall|k: T::V| #[trigger] m.contains_key(k) ==> exists|x: int| 0 <= x < ks.len() && ks[x]@ == k,
                dots_of(all).to_set() == Set::new(|d: Dot| exists|j: int| 0 <= j < i && m[ks[j]@].contains(d)),
            decreases n - i,
        {
            let (_, ds) = self.entries.entry_at(i);
            let dn = dots_len(&ds);
            let mut j: usize = 0;
            let ghost before = dots_of(all).to_set();
            while j < dn
                invariant
                    dn == dots_of(ds).len(),
                    j <= dn,
                    dots_of(all).to_set() == before.union(dots_of(ds).subrange(0, j as int).to_set()),
                decreases dn - j,
            {
                let d = dots_get(&ds, j);
                dots_add(&mut all, d);
                proof {
                    let pre = dots_of(ds).subrange(0, j as int);
                    let post = dots_of(ds).subrange(0, j as int + 1);
                    assert forall|x: Dot| #[trigger] post.to_set().contains(x) <==> pre.to_set().insert(
                        d,
                    ).contains(x) by {
                        if pre.contains(x) {
                            let q = choose|q: int| 0 <= q < pre.len() && pre[q] == x;
                            assert(post[q] == x);
                        }
                        if x == d {
                            assert(post[j as int] == x);
                        }
                        if post.contains(x) {
                            let q = choose|q: int| 0 <= q < post.len() && post[q] == x;
                            if q < j {
                                assert(pre[q] == x);
                            }
                        }
                    }
                    assert(dots_of(all).to_set() =~= before.union(post.to_set()));
                }
                j = j + 1;
            }
            proof {
                assert(dots_of(ds).subrange(0, dn as int) =~= dots_of(ds));
                assert(dots_of(all).to_set() =~= Set::new(|d: Dot| exists|q: int| 0 <= q < i + 1 && m[ks[q]@].contains(d))) by {
                    assert forall|d: Dot| #[trigger] dots_of(all).to_set().contains(d) <==> (exists|q: int| 0 <= q < i + 1 && m[ks[q]@].contains(d)) by {
                        if exists|q: int| 0 <= q < i + 1 && m[ks[q]@].contains(d) {
                            let q = choose|q: int| 0 <= q < i + 1 && m[ks[q]@].contains(d);
                            if q < i {
                                assert(before.contains(d));
                            }
                        }
                    }
                }
            }
            i = i + 1;
        }
        proof {
            assert(dots_of(all).to_set() =~= all_dots(m)) by {
                assert forall|d: Dot| #[trigger] dots_of(all).to_set().contains(d) <==> all_dots(m).contains(d) by {
                    if all_dots(m).contains(d) {
                        let k = choose|k: T::V| m.contains_key(k) && m[k].contains(d);
                        let x = choose|x: int| 0 <= x < ks.len() && ks[x]@ == k;
                    }
                    if dots_of(all).to_set().contains(d) {
                        let q = choose|q: int| 0 <= q < n && m[ks[q]@].contains(d);
                        assert(m.contains_key(ks[q]@));
                    }
                }
            }
        }
        self.entries = KeyDots::new();
        let mut delta = match self.delta.take() {
            Some(x) => x,
            None => Delta::new(),
        };
        delta.remove(&all);
        self.delta = Some(delta);
    }

    /// The number of live keys.
    pub fn len(&self) -> (r: usize)
        ensures
            r == self@.1.dom().len(),
    {
        self.entries.len()
    }

    /// Whether no key is live.
    pub fn is_empty(&self) -> (r: bool)
        ensures
            r == (self@.1.dom().len() == 0),
    {
        self.entries.len() == 0
    }

    /// The live keys, each once.
    pub fn value(&self) -> (r: Vec<T>)
        ensures
            r@.len() == self@.1.dom().len(),
            forall|i: int| 0 <= i < r@.len() ==> #[trigger] self@.1.contains_key(r@[i]@),
            forall|k: T::V| #[trigger] self@.1.contains_key(k) ==> exists|i: int| 0 <= i < r@.len() && r@[i]@ == k,
            forall|i: int, j: int| 0 <= i < j < r@.len() ==> r@[i]@ != r@[j]@,
    {
        let n = self.entries.len();
        let mut r: Vec<T> = Vec::new();
        let mut i: usize = 0;
        while i < n
            invariant
                n == self.entries.keys().len(),
                i <= n,
                r@ == self.entries.keys().subrange(0, i as int),
            decreases n - i,
        {
            r.push(self.entries.key_at(i));
            i = i + 1;
            proof {
                assert(r@ =~= self.entries.keys().subrange(0, i as int));
            }
        }
        proof {
            assert(r@ =~= self.entries.keys());
        }
        r
    }

    /// Moves the pending changes out.
    pub fn delta(&mut self) -> (r: Option<Delta<T>>)
        ensures
            final(self)@.0 == old(self)@.0,
            final(self)@.1 == old(self)@.1,
            final(self)@.2 is None,
            r is Some <==> old(self)@.2 is Some,
            r is Some ==> Some(r->0@) == old(self)@.2,
    {
        self.delta.take()
    }

    /// Merges another replica's kernel and reports each key that gained dots or was dropped.
    /// A dot stays when both replicas hold it, or when one holds it and the other has not
    /// seen it; a key left without dots goes. What has been seen becomes the union of both.
    #[verifier::rlimit(60)]
    pub fn merge_with(&mut self, other: &Kernel<T>) -> (r: (bool, Vec<MergeOp<T>>))
        ensures
            final(self)@.1 == kernel_merge(old(self)@.1, old(self)@.0, other@.1, other@.0),
            forall|x: Dot|
                #[trigger] dvv_has(final(self)@.0, x) == (dvv_has(old(self)@.0, x) || dvv_has(other@.0, x)),
            dvv_compact(final(self)@.0),
            clock_wf(final(self)@.0.0),
            final(self)@.0 == dvv_join(old(self)@.0, other@.0),
            final(self)@.2 == old(self)@.2,
            updated_keys(r.1@) == gained_keys(old(self)@.1, old(self)@.0, other@.1),
            removed_keys(r.1@) == dropped_keys(old(self)@.1, old(self)@.0, other@.1, other@.0),
            updates_first(r.1@),
            reported_once(r.1@),
            r.0 == (r.1@.len() > 0 || loses_dots(old(self)@.1, other@.1, other@.0) || dvv_gain(
                old(self)@.0,
                other@.0,
            )),
    {
        let ghost a = self@.1;
        let ghost sa = self@.0;
        let ghost b = other@.1;
        let ghost sb = other@.0;
        let ghost bk = other.entries.keys();
        let mut ev: Vec<MergeOp<T>> = Vec::new();
        let n = other.entries.len();
        let mut i: usize = 0;
        proof {
            let none_yet = Set::<T::V>::new(|k: T::V| exists|j: int| 0 <= j < 0 && bk[j]@ == k);
            assert(none_yet =~= Set::<T::V>::empty());
            let w = with_fresh(a, sa, b.restrict(none_yet));
            assert forall|k: T::V| #[trigger] w.contains_key(k) implies w[k] =~= a[k] by {
                assert(fresh_at(a, sa, b.restrict(none_yet), k) =~= Set::<Dot>::empty());
            }
            assert forall|k: T::V| #[trigger] w.contains_key(k) <==> a.contains_key(k) by {
                assert(fresh_at(a, sa, b.restrict(none_yet), k) =~= Set::<Dot>::empty());
            }
            assert(w =~= a);
            assert(gained_keys(a, sa, b.restrict(none_yet)) =~= Set::<T::V>::empty());
            assert(updated_keys(ev@) =~= Set::<T::V>::empty());
            assert(removed_keys(ev@) =~= Set::<T::V>::empty());
        }
        while i < n
            invariant
                n == bk.len(),
                i <= n,
                bk == other.entries.keys(),
                b == other@.1,
                sb == other@.0,
                a == old(self)@.1,
                sa == old(self)@.0,
                self@.0 == old(self)@.0,
                self@.2 == old(self)@.2,
                forall|x: int| 0 <= x < bk.len() ==> #[trigger] b.contains_key(bk[x]@),
                forall|k: T::V| #[trigger] b.contains_key(k) ==> exists|x: int| 0 <= x < bk.len() && bk[x]@ == k,
                forall|x: int, y: int| 0 <= x < y < bk.len() ==> bk[x]@ != bk[y]@,
                self@.1 == with_fresh(a, sa, b.restrict(Set::new(|k: T::V| exists|j: int| 0 <= j < i && bk[j]@ == k))),
                updated_keys(ev@) == gained_keys(a, sa, b.restrict(Set::new(|k: T::V| exists|j: int| 0 <= j < i && bk[j]@ == k))),
                removed_keys(ev@) == Set::<T::V>::empty(),
                forall|x: int| 0 <= x < ev@.len() ==> #[trigger] ev@[x] is Updated,
                forall|x: int| 0 <= x < ev@.len() ==> exists|j: int| 0 <= j < i && reports_update(#[trigger] ev@[x], bk[j]@),
                reported_once(ev@),
                ev@.len() == 0 <==> updated_keys(ev@) == Set::<T::V>::empty(),
            decreases n - i,
        {
            let (k, ods) = other.entries.entry_at(i);
            let ghost pre = Set::new(|q: T::V| exists|j: int| 0 <= j < i && bk[j]@ == q);
            let ghost post = Set::new(|q: T::V| exists|j: int| 0 <= j < i + 1 && bk[j]@ == q);
            let ghost cur = self@.1;
            let ghost ev0 = ev@;
            let ghost bpre = b.restrict(pre);
            let ghost bpost = b.restrict(post);
            proof {
                assert(!pre.contains(k@)) by {
                    if pre.contains(k@) {
                        let j = choose|j: int| 0 <= j < i && bk[j]@ == k@;
                    }
                }
                assert(post =~= pre.insert(k@));
                assert(fresh_at(a, sa, bpre, k@) =~= Set::<Dot>::empty());
                assert(dots_at(cur, k@) =~= dots_at(a, k@));
                assert forall|q: T::V| q != k@ implies #[trigger] fresh_at(a, sa, bpost, q) =~= fresh_at(a, sa, bpre, q) by {}
            }
            let curl = self.entries.get(&k);
            let fresh = dots_fresh(&ods, &curl, &self.seen);
            let fn_ = dots_len(&fresh);
            proof {
                assert(dots_of(fresh).to_set() =~= fresh_at(a, sa, bpost, k@));
                if fn_ > 0 {
                    assert(dots_of(fresh).to_set().contains(dots_of(fresh)[0]));
                } else {
                    assert(dots_of(fresh).to_set() =~= Set::<Dot>::empty());
                }
            }
            if fn_ > 0 {
                self.entries.add_dots(k, &fresh);
                ev.push(MergeOp::Updated(k));
                proof {
                    lemma_push_update(ev0, k);
                    assert(updated_keys(ev@).contains(k@));
                    assert(!updated_keys(ev0).contains(k@)) by {
                        if updated_keys(ev0).contains(k@) {
                            let x = choose|x: int| 0 <= x < ev0.len() && reports_update(ev0[x], k@);
                            let j = choose|j: int| 0 <= j < i && reports_update(ev0[x], bk[j]@);
                        }
                    }
                    lemma_once_push(ev0, MergeOp::Updated(k), k@);
                    assert forall|x: int| 0 <= x < ev@.len() implies exists|j: int| 0 <= j < i + 1 && reports_update(#[trigger] ev@[x], bk[j]@) by {
                        if x < ev0.len() {
                            assert(ev@[x] == ev0[x]);
                            let j = choose|j: int| 0 <= j < i && reports_update(ev0[x], bk[j]@);
                        } else {
                            assert(reports_update(ev@[x], bk[i as int]@));
                        }
                    }
                }
            }
            proof {
                let target = with_fresh(a, sa, bpost);
                assert forall|q: T::V| #[trigger] self@.1.contains_key(q) <==> target.contains_key(q) by {
                    if q != k@ {
                        assert(fresh_at(a, sa, bpost, q) =~= fresh_at(a, sa, bpre, q));
                    }
                }
                assert forall|q: T::V| #[trigger] self@.1.contains_key(q) implies self@.1[q] =~= target[q] by {
                    if q != k@ {
                        assert(fresh_at(a, sa, bpost, q) =~= fresh_at(a, sa, bpre, q));
                    }
                }
                assert(self@.1 =~= target);
                assert forall|q: T::V| #[trigger] gained_keys(a, sa, bpost).contains(q) <==> updated_keys(ev@).contains(q) by {
                    if q != k@ {
                        assert(fresh_at(a, sa, bpost, q) =~= fresh_at(a, sa, bpre, q));
                    }
                }
                assert(gained_keys(a, sa, bpost) =~= updated_keys(ev@));
            }
            i = i + 1;
        }
        proof {
            let pall = Set::new(|k: T::V| exists|j: int| 0 <= j < n && bk[j]@ == k);
            assert(b.restrict(pall) =~= b);
        }
        let ghost u = self@.1;
        let ghost uk = self.entries.keys();
        let ghost ev1 = ev@;
        let n2 = self.entries.len();
        let mut kept: KeyDots<T> = KeyDots::new();
        let mut lost = false;
        let mut j: usize = 0;
        proof {
            assert forall|q: T::V| #[trigger] updated_keys(ev1).contains(q) implies exists|d: Dot| stays(u, b, sb, q, d) by {
                let d = choose|d: Dot| fresh_at(a, sa, b, q).contains(d);
                assert(u.contains_key(q));
                assert(stays(u, b, sb, q, d));
            }
            assert(removed_keys(ev@) =~= Set::new(|q: T::V| (exists|x: int| 0 <= x < 0 && uk[x]@ == q) && u.contains_key(q) && !exists|d: Dot| stays(u, b, sb, q, d)));
            assert(kept@ =~= Map::new(|q: T::V| (exists|x: int| 0 <= x < 0 && uk[x]@ == q) && u.contains_key(q) && exists|d: Dot| stays(u, b, sb, q, d), |q: T::V| Set::new(|d: Dot| stays(u, b, sb, q, d))));
        }
        while j < n2
            invariant
                n2 == uk.len(),
                j <= n2,
                uk == self.entries.keys(),
                u == self@.1,
                b == other@.1,
                sb == other@.0,
                self@.0 == old(self)@.0,
                self@.2 == old(self)@.2,
                forall|x: int| 0 <= x < uk.len() ==> #[trigger] u.contains_key(uk[x]@),
                forall|k: T::V| #[trigger] u.contains_key(k) ==> exists|x: int| 0 <= x < uk.len() && uk[x]@ == k,
                forall|x: int, y: int| 0 <= x < y < uk.len() ==> uk[x]@ != uk[y]@,
                updated_keys(ev@) == updated_keys(ev1),
                ev1.len() <= ev@.len(),
                forall|x: int| 0 <= x < ev1.len() ==> #[trigger] ev@[x] == ev1[x],
                forall|x: int| 0 <= x < ev1.len() ==> #[trigger] ev1[x] is Updated,
                forall|x: int| ev1.len() <= x < ev@.len() ==> #[trigger] ev@[x] is Removed,
                forall|x: int| ev1.len() <= x < ev@.len() ==> exists|y: int| 0 <= y < j && reports_removal(#[trigger] ev@[x], uk[y]@),
                reported_once(ev@),
                forall|q: T::V| #[trigger] updated_keys(ev1).contains(q) ==> exists|d: Dot| stays(u, b, sb, q, d),
                ev@.len() == 0 ==> ev1.len() == 0,
                removed_keys(ev@) == Set::new(|q: T::V| (exists|x: int| 0 <= x < j && uk[x]@ == q) && u.contains_key(q) && !exists|d: Dot| stays(u, b, sb, q, d)),
                lost == exists|x: int, d: Dot| 0 <= x < j && dots_at(u, uk[x]@).contains(d) && !stays(u, b, sb, uk[x]@, d),
                kept@ == Map::new(|q: T::V| (exists|x: int| 0 <= x < j && uk[x]@ == q) && u.contains_key(q) && exists|d: Dot| stays(u, b, sb, q, d), |q: T::V| Set::new(|d: Dot| stays(u, b, sb, q, d))),
            decreases n2 - j,
        {
            let (k, ds) = self.entries.entry_at(j);
            let bds = other.entries.get(&k);
            let rest = dots_keep(&ds, &bds, &other.seen);
            let rn = dots_len(&rest);
            let whole = dots_all_in(&ds, &rest);
            proof {
                if !whole {
                    let d = choose|d: Dot| dots_of(ds).to_set().contains(d) && !dots_of(rest).to_set().contains(d);
                    assert(dots_at(u, uk[j as int]@).contains(d) && !stays(u, b, sb, uk[j as int]@, d));
                }
                if exists|x: int, d: Dot| 0 <= x < j + 1 && dots_at(u, uk[x]@).contains(d) && !stays(u, b, sb, uk[x]@, d) {
                    let (x, d) = choose|x: int, d: Dot| 0 <= x < j + 1 && dots_at(u, uk[x]@).contains(d) && !stays(u, b, sb, uk[x]@, d);
                    if x == j {
                        assert(dots_of(ds).to_set().contains(d));
                        assert(!dots_of(rest).to_set().contains(d));
                    }
                }
            }
            if !whole {
                lost = true;
            }
            let ghost pre = Set::new(|q: T::V| exists|x: int| 0 <= x < j && uk[x]@ == q);
            let ghost post = Set::new(|q: T::V| exists|x: int| 0 <= x < j + 1 && uk[x]@ == q);
            let ghost ev0 = ev@;
            proof {
                assert(!pre.contains(k@)) by {
                    if pre.contains(k@) {
                        let x = choose|x: int| 0 <= x < j && uk[x]@ == k@;
                    }
                }
                assert(post =~= pre.insert(k@));
                assert(dots_of(rest).to_set() =~= Set::new(|d: Dot| stays(u, b, sb, k@, d)));
                if rn > 0 {
                    assert(dots_of(rest).to_set().contains(dots_of(rest)[0]));
                } else {
                    assert(dots_of(rest).to_set() =~= Set::<Dot>::empty());
                    assert(!exists|d: Dot| stays(u, b, sb, k@, d)) by {
                        if exists|d: Dot| stays(u, b, sb, k@, d) {
                            let d = choose|d: Dot| stays(u, b, sb, k@, d);
                            assert(dots_of(rest).to_set().contains(d));
                        }
                    }
                }
            }
            if rn == 0 {
                ev.push(MergeOp::Removed(k));
                proof {
                    lemma_push_removal(ev0, k);
                    assert(!removed_keys(ev0).contains(k@));
                    assert(!updated_keys(ev0).contains(k@));
                    lemma_once_push(ev0, MergeOp::Removed(k), k@);
                    assert forall|x: int| ev1.len() <= x < ev@.len() implies exists|y: int| 0 <= y < j + 1 && reports_removal(#[trigger] ev@[x], uk[y]@) by {
                        if x < ev0.len() {
                            assert(ev@[x] == ev0[x]);
                            let y = choose|y: int| 0 <= y < j && reports_removal(ev0[x], uk[y]@);
                        } else {
                            assert(reports_removal(ev@[x], uk[j as int]@));
                        }
                    }
                    assert(removed_keys(ev@) =~= Set::new(|q: T::V| (exists|x: int| 0 <= x < j + 1 && uk[x]@ == q) && u.contains_key(q) && !exists|d: Dot| stays(u, b, sb, q, d)));
                    assert(kept@ =~= Map::new(|q: T::V| (exists|x: int| 0 <= x < j + 1 && uk[x]@ == q) && u.contains_key(q) && exists|d: Dot| stays(u, b, sb, q, d), |q: T::V| Set::new(|d: Dot| stays(u, b, sb, q, d))));
                }
            } else {
                kept.push_new(k, rest);
                proof {
                    assert(removed_keys(ev@) =~= Set::new(|q: T::V| (exists|x: int| 0 <= x < j + 1 && uk[x]@ == q) && u.contains_key(q) && !exists|d: Dot| stays(u, b, sb, q, d)));
                    assert(kept@ =~= Map::new(|q: T::V| (exists|x: int| 0 <= x < j + 1 && uk[x]@ == q) && u.contains_key(q) && exists|d: Dot| stays(u, b, sb, q, d), |q: T::V| Set::new(|d: Dot| stays(u, b, sb, q, d))));
                }
            }
            j = j + 1;
        }
        proof {
            lemma_stays_kept(a, sa, b, sb);
            let m = kernel_merge(a, sa, b, sb);
            assert forall|q: T::V| #[trigger] kept@.contains_key(q) <==> m.contains_key(q) by {
                if m.contains_key(q) {
                    let d = choose|d: Dot| kept_dot(a, sa, b, sb, q, d);
                    assert(stays(u, b, sb, q, d));
                    let x = choose|x: int| 0 <= x < n2 && uk[x]@ == q;
                }
                if kept@.contains_key(q) {
                    let d = choose|d: Dot| stays(u, b, sb, q, d);
                    assert(kept_dot(a, sa, b, sb, q, d));
                }
            }
            assert forall|q: T::V| #[trigger] kept@.contains_key(q) implies kept@[q] =~= m[q] by {}
            assert(kept@ =~= m);
            assert forall|q: T::V| #[trigger] removed_keys(ev@).contains(q) <==> dropped_keys(a, sa, b, sb).contains(q) by {
                if a.contains_key(q) {
                    assert(u.contains_key(q));
                    let x = choose|x: int| 0 <= x < n2 && uk[x]@ == q;
                }
                if u.contains_key(q) && !a.contains_key(q) {
                    let d = choose|d: Dot| fresh_at(a, sa, b, q).contains(d);
                    assert(stays(u, b, sb, q, d));
                }
                if exists|d: Dot| stays(u, b, sb, q, d) {
                    let d = choose|d: Dot| stays(u, b, sb, q, d);
                    assert(kept_dot(a, sa, b, sb, q, d));
                }
                if m.contains_key(q) {
                    let d = choose|d: Dot| kept_dot(a, sa, b, sb, q, d);
                    assert(stays(u, b, sb, q, d));
                }
            }
            assert(removed_keys(ev@) =~= dropped_keys(a, sa, b, sb));
            if lost {
                let (x, d) = choose|x: int, d: Dot| 0 <= x < n2 && dots_at(u, uk[x]@).contains(d) && !stays(u, b, sb, uk[x]@, d);
                let q = uk[x]@;
                if !dots_at(a, q).contains(d) {
                    assert(fresh_at(a, sa, b, q).contains(d));
                }
                assert(dots_at(a, q).contains(d) && !dots_at(b, q).contains(d) && dvv_has(sb, d));
            }
            if loses_dots(a, b, sb) {
                let (q, d) = choose|q: T::V, d: Dot| dots_at(a, q).contains(d) && !dots_at(b, q).contains(d) && dvv_has(sb, d);
                assert(u.contains_key(q));
                let x = choose|x: int| 0 <= x < n2 && uk[x]@ == q;
                assert(dots_at(u, uk[x]@).contains(d) && !stays(u, b, sb, uk[x]@, d));
            }
        }
        self.entries = kept;
        let ghost s0 = self.seen@;
        let seen_changed = self.seen.merge(&other.seen);
        proof {
            assert(s0 == old(self)@.0);
            assert forall|x: Dot| dvv_has(self@.0, x) == (dvv_has(old(self)@.0, x) || dvv_has(other@.0, x)) by {
                assert(dvv_has(self.seen@, x) == (dvv_has(s0, x) || dvv_has(other.seen@, x)));
            }
        }
        (ev.len() > 0 || lost || seen_changed, ev)
    }

    /// Folds in a delta and reports each key that gained dots or was dropped. An insert
    /// applies when one of its dots has not been seen, and adds its dots that the delta does
    /// not remove; removed dots are then stripped from every key, and a key left without dots
    /// goes. What has been seen does not advance. Returns whether the entries changed.
    #[verifier::rlimit(60)]
    pub fn merge_with_delta(&mut self, other: &Delta<T>) -> (r: (bool, Vec<MergeOp<T>>))
        ensures
            final(self)@.1 == delta_stripped(delta_inserted(old(self)@.1, other@.0, old(self)@.0, other@.1), other@.1),
            final(self)@.0 == old(self)@.0,
            final(self)@.2 == old(self)@.2,
            updated_keys(r.1@) == inserted_keys(old(self)@.1, other@.0, old(self)@.0, other@.1),
            removed_keys(r.1@) == emptied_keys(delta_inserted(old(self)@.1, other@.0, old(self)@.0, other@.1), other@.1),
            updates_first(r.1@),
            reported_once(r.1@),
            r.0 == (inserted_keys(old(self)@.1, other@.0, old(self)@.0, other@.1) != Set::<T::V>::empty()
                || strips_some(old(self)@.1, other@.1)),
    {
        let ghost a = self@.1;
        let ghost b = other@.0;
        let ghost rem = other@.1;
        let ghost sn = self@.0;
        let ghost bk = other.inserts.keys();
        let mut ev: Vec<MergeOp<T>> = Vec::new();
        let n = other.inserts.len();
        let mut i: usize = 0;
        let mut inserted = false;
        proof {
            let none_yet = Set::<T::V>::new(|k: T::V| exists|j: int| 0 <= j < 0 && bk[j]@ == k);
            assert(none_yet =~= Set::<T::V>::empty());
            assert(delta_inserted(a, b.restrict(none_yet), sn, rem) =~= a);
            assert(inserted_keys(a, b.restrict(none_yet), sn, rem) =~= Set::<T::V>::empty());
            assert(updated_keys(ev@) =~= Set::<T::V>::empty());
            assert(removed_keys(ev@) =~= Set::<T::V>::empty());
        }
        while i < n
            invariant
                n == bk.len(),
                i <= n,
                bk == other.inserts.keys(),
                b == other@.0,
                rem == other@.1,
                a == old(self)@.1,
                sn == old(self)@.0,
                self@.0 == old(self)@.0,
                self@.2 == old(self)@.2,
                forall|x: int| 0 <= x < bk.len() ==> #[trigger] b.contains_key(bk[x]@),
                forall|k: T::V| #[trigger] b.contains_key(k) ==> exists|x: int| 0 <= x < bk.len() && bk[x]@ == k,
                forall|x: int, y: int| 0 <= x < y < bk.len() ==> bk[x]@ != bk[y]@,
                self@.1 == delta_inserted(a, b.restrict(Set::new(|k: T::V| exists|j: int| 0 <= j < i && bk[j]@ == k)), sn, rem),
                updated_keys(ev@) == inserted_keys(a, b.restrict(Set::new(|k: T::V| exists|j: int| 0 <= j < i && bk[j]@ == k)), sn, rem),
                removed_keys(ev@) == Set::<T::V>::empty(),
                forall|x: int| 0 <= x < ev@.len() ==> #[trigger] ev@[x] is Updated,
                forall|x: int| 0 <= x < ev@.len() ==> exists|j: int| 0 <= j < i && reports_update(#[trigger] ev@[x], bk[j]@),
                reported_once(ev@),
                inserted == (updated_keys(ev@) != Set::<T::V>::empty()),
            decreases n - i,
        {
            let (k, ds) = other.inserts.entry_at(i);
            let ghost pre = Set::new(|q: T::V| exists|j: int| 0 <= j < i && bk[j]@ == q);
            let ghost post = Set::new(|q: T::V| exists|j: int| 0 <= j < i + 1 && bk[j]@ == q);
            let ghost cur = self@.1;
            let ghost ev0 = ev@;
            let ghost bpre = b.restrict(pre);
            let ghost bpost = b.restrict(post);
            proof {
                assert(!pre.contains(k@)) by {
                    if pre.contains(k@) {
                        let j = choose|j: int| 0 <= j < i && bk[j]@ == k@;
                    }
                }
                assert(post =~= pre.insert(k@));
                assert(dots_at(cur, k@) =~= dots_at(a, k@));
            }
            let unseen = any_unseen(&ds, &self.seen);
            let fresh = dots_minus(&ds, &other.removals);
            let fn_ = dots_len(&fresh);
            proof {
                if fn_ > 0 {
                    assert(dots_of(fresh).to_set().contains(dots_of(fresh)[0]));
                } else {
                    assert(dots_of(fresh).to_set() =~= Set::<Dot>::empty());
                }
                assert(bpost.contains_key(k@));
                assert(bpost[k@] == b[k@]);
                assert(b[k@] == dots_of(ds).to_set());
                assert(dots_of(other.removals).to_set() == rem);
                if unseen && fn_ > 0 {
                    let d = choose|d: Dot| dots_of(fresh).to_set().contains(d);
                    assert(b[k@].contains(d) && !rem.contains(d));
                }
                if delta_applies(bpost, sn, rem, k@) {
                    let d = choose|d: Dot| bpost[k@].contains(d) && !rem.contains(d);
                    assert(dots_of(fresh).to_set().contains(d));
                }
                assert(delta_applies(bpost, sn, rem, k@) == (unseen && fn_ > 0));
            }
            if unseen && fn_ > 0 {
                let added = self.entries.add_dots(k, &fresh);
                if added {
                    ev.push(MergeOp::Updated(k));
                    inserted = true;
                    proof {
                        lemma_push_update(ev0, k);
                        assert(updated_keys(ev@).contains(k@));
                        assert(!updated_keys(ev0).contains(k@)) by {
                            if updated_keys(ev0).contains(k@) {
                                let x = choose|x: int| 0 <= x < ev0.len() && reports_update(ev0[x], k@);
                                let j = choose|j: int| 0 <= j < i && reports_update(ev0[x], bk[j]@);
                            }
                        }
                        lemma_once_push(ev0, MergeOp::Updated(k), k@);
                        assert forall|x: int| 0 <= x < ev@.len() implies exists|j: int| 0 <= j < i + 1 && reports_update(#[trigger] ev@[x], bk[j]@) by {
                            if x < ev0.len() {
                                assert(ev@[x] == ev0[x]);
                                let j = choose|j: int| 0 <= j < i && reports_update(ev0[x], bk[j]@);
                            } else {
                                assert(reports_update(ev@[x], bk[i as int]@));
                            }
                        }
                    }
                }
            }
            proof {
                let target = delta_inserted(a, bpost, sn, rem);
                assert forall|q: T::V| #[trigger] self@.1.contains_key(q) <==> target.contains_key(q) by {
                    if q != k@ {
                        assert(delta_applies(bpost, sn, rem, q) == delta_applies(bpre, sn, rem, q));
                    }
                }
                assert forall|q: T::V| #[trigger] self@.1.contains_key(q) implies self@.1[q] =~= target[q] by {
                    if q != k@ {
                        assert(delta_applies(bpost, sn, rem, q) == delta_applies(bpre, sn, rem, q));
                    }
                }
                assert(self@.1 =~= target);
                assert forall|q: T::V| #[trigger] inserted_keys(a, bpost, sn, rem).contains(q) <==> updated_keys(ev@).contains(q) by {
                    if q != k@ {
                        assert(delta_applies(bpost, sn, rem, q) == delta_applies(bpre, sn, rem, q));
                    }
                }
                assert(inserted_keys(a, bpost, sn, rem) =~= updated_keys(ev@));
            }
            i = i + 1;
        }
        proof {
            let pall = Set::new(|k: T::V| exists|j: int| 0 <= j < n && bk[j]@ == k);
            assert(b.restrict(pall) =~= b);
        }
        let ghost u = self@.1;
        let ghost uk = self.entries.keys();
        let ghost ev1 = ev@;
        let n2 = self.entries.len();
        let mut kept: KeyDots<T> = KeyDots::new();
        let mut stripped = false;
        let mut j: usize = 0;
        proof {
            assert forall|q: T::V| #[trigger] updated_keys(ev1).contains(q) implies exists|d: Dot| dots_at(u, q).contains(d) && !rem.contains(d) by {
                let d = choose|d: Dot| b[q].contains(d) && !rem.contains(d);
                assert(u.contains_key(q));
                assert(dots_at(u, q).contains(d));
            }
            assert(removed_keys(ev@) =~= Set::new(|q: T::V| (exists|x: int| 0 <= x < 0 && uk[x]@ == q) && u.contains_key(q) && !exists|d: Dot| u[q].contains(d) && !rem.contains(d)));
            assert(kept@ =~= Map::new(|q: T::V| (exists|x: int| 0 <= x < 0 && uk[x]@ == q) && u.contains_key(q) && exists|d: Dot| u[q].contains(d) && !rem.contains(d), |q: T::V| u[q].difference(rem)));
        }
        while j < n2
            invariant
                n2 == uk.len(),
                j <= n2,
                uk == self.entries.keys(),
                u == self@.1,
                rem == other@.1,
                a == old(self)@.1,
                self@.0 == old(self)@.0,
                self@.2 == old(self)@.2,
                forall|x: int| 0 <= x < uk.len() ==> #[trigger] u.contains_key(uk[x]@),
                forall|k: T::V| #[trigger] u.contains_key(k) ==> exists|x: int| 0 <= x < uk.len() && uk[x]@ == k,
                forall|x: int, y: int| 0 <= x < y < uk.len() ==> uk[x]@ != uk[y]@,
                updated_keys(ev@) == inserted_keys(a, b, sn, rem),
                updated_keys(ev1) == inserted_keys(a, b, sn, rem),
                forall|q: T::V| #[trigger] updated_keys(ev1).contains(q) ==> exists|d: Dot| dots_at(u, q).contains(d) && !rem.contains(d),
                ev1.len() <= ev@.len(),
                forall|x: int| 0 <= x < ev1.len() ==> #[trigger] ev1[x] is Updated,
                forall|x: int| 0 <= x < ev1.len() ==> #[trigger] ev@[x] == ev1[x],
                forall|x: int| ev1.len() <= x < ev@.len() ==> #[trigger] ev@[x] is Removed,
                forall|x: int| ev1.len() <= x < ev@.len() ==> exists|y: int| 0 <= y < j && reports_removal(#[trigger] ev@[x], uk[y]@),
                reported_once(ev@),
                removed_keys(ev@) == Set::new(|q: T::V| (exists|x: int| 0 <= x < j && uk[x]@ == q) && u.contains_key(q) && !exists|d: Dot| u[q].contains(d) && !rem.contains(d)),
                kept@ == Map::new(|q: T::V| (exists|x: int| 0 <= x < j && uk[x]@ == q) && u.contains_key(q) && exists|d: Dot| u[q].contains(d) && !rem.contains(d), |q: T::V| u[q].difference(rem)),
                stripped == exists|x: int, d: Dot| 0 <= x < j && u[uk[x]@].contains(d) && rem.contains(d),
            decreases n2 - j,
        {
            let (k, ds) = self.entries.entry_at(j);
            let rest = dots_minus(&ds, &other.removals);
            let hit = dots_meet(&ds, &other.removals);
            let ghost pre = Set::new(|q: T::V| exists|x: int| 0 <= x < j && uk[x]@ == q);
            let ghost post = Set::new(|q: T::V| exists|x: int| 0 <= x < j + 1 && uk[x]@ == q);
            let ghost ev0 = ev@;
            proof {
                assert(!pre.contains(k@)) by {
                    if pre.contains(k@) {
                        let x = choose|x: int| 0 <= x < j && uk[x]@ == k@;
                    }
                }
                assert(post =~= pre.insert(k@));
                if hit {
                    let d = choose|d: Dot| dots_of(ds).to_set().contains(d) && dots_of(other.removals).to_set().contains(d);
                    assert(u[uk[j as int]@].contains(d) && rem.contains(d));
                }
                if exists|x: int, d: Dot| 0 <= x < j + 1 && u[uk[x]@].contains(d) && rem.contains(d) {
                    let (x, d) = choose|x: int, d: Dot| 0 <= x < j + 1 && u[uk[x]@].contains(d) && rem.contains(d);
                    if x == j {
                        assert(dots_of(ds).to_set().contains(d));
                    }
                }
            }
            if hit {
                stripped = true;
            }
            let rn = dots_len(&rest);
            proof {
                if rn > 0 {
                    assert(dots_of(rest).to_set().contains(dots_of(rest)[0]));
                } else {
                    assert(dots_of(rest).to_set() =~= Set::<Dot>::empty());
                }
            }
            if rn == 0 {
                ev.push(MergeOp::Removed(k));
                proof {
                    lemma_push_removal(ev0, k);
                    assert(removed_keys(ev@).contains(k@));
                    assert(!exists|d: Dot| u[k@].contains(d) && !rem.contains(d)) by {
                        if exists|d: Dot| u[k@].contains(d) && !rem.contains(d) {
                            let d = choose|d: Dot| u[k@].contains(d) && !rem.contains(d);
                            assert(dots_of(rest).to_set().contains(d));
                        }
                    }
                    assert(!updated_keys(ev0).contains(k@));
                    assert(!removed_keys(ev0).contains(k@));
                    lemma_once_push(ev0, MergeOp::Removed(k), k@);
                    assert forall|x: int| ev1.len() <= x < ev@.len() implies exists|y: int| 0 <= y < j + 1 && reports_removal(#[trigger] ev@[x], uk[y]@) by {
                        if x < ev0.len() {
                            assert(ev@[x] == ev0[x]);
                            let y = choose|y: int| 0 <= y < j && reports_removal(ev0[x], uk[y]@);
                        } else {
                            assert(reports_removal(ev@[x], uk[j as int]@));
                        }
                    }
                    assert(removed_keys(ev@) =~= Set::new(|q: T::V| (exists|x: int| 0 <= x < j + 1 && uk[x]@ == q) && u.contains_key(q) && !exists|d: Dot| u[q].contains(d) && !rem.contains(d)));
                    assert(kept@ =~= Map::new(|q: T::V| (exists|x: int| 0 <= x < j + 1 && uk[x]@ == q) && u.contains_key(q) && exists|d: Dot| u[q].contains(d) && !rem.contains(d), |q: T::V| u[q].difference(rem)));
                }
            } else {
                kept.push_new(k, rest);
                proof {
                    assert(dots_of(rest).to_set().contains(dots_of(rest)[0]));
                    assert(exists|d: Dot| u[k@].contains(d) && !rem.contains(d));
                    assert(removed_keys(ev@) =~= Set::new(|q: T::V| (exists|x: int| 0 <= x < j + 1 && uk[x]@ == q) && u.contains_key(q) && !exists|d: Dot| u[q].contains(d) && !rem.contains(d)));
                    assert(kept@ =~= Map::new(|q: T::V| (exists|x: int| 0 <= x < j + 1 && uk[x]@ == q) && u.contains_key(q) && exists|d: Dot| u[q].contains(d) && !rem.contains(d), |q: T::V| u[q].difference(rem)));
                }
            }
            j = j + 1;
        }
        proof {
            assert forall|q: T::V| #[trigger] u.contains_key(q) implies (exists|x: int| 0 <= x < n2 && uk[x]@ == q) by {}
            assert(kept@ =~= delta_stripped(u, rem));
            assert(removed_keys(ev@) =~= emptied_keys(u, rem));
            if strips_some(a, rem) {
                let (q, d) = choose|q: T::V, d: Dot| a.contains_key(q) && a[q].contains(d) && rem.contains(d);
                assert(u.contains_key(q));
                assert(u[q].contains(d));
                let x = choose|x: int| 0 <= x < n2 && uk[x]@ == q;
                assert(u[uk[x]@].contains(d));
            }
            if stripped {
                let (x, d) = choose|x: int, d: Dot| 0 <= x < n2 && u[uk[x]@].contains(d) && rem.contains(d);
                let q = uk[x]@;
                assert(u.contains_key(q));
                if delta_applies(b, sn, rem, q) {
                    assert(!b[q].difference(rem).contains(d));
                    assert(dots_at(a, q).contains(d));
                } else {
                    assert(a.contains_key(q));
                }
                assert(a.contains_key(q) && a[q].contains(d));
            }
        }
        self.entries = kept;
        (inserted || stripped, ev)
    }

    /// Merges another replica's kernel; returns whether anything changed.
    pub fn merge(&mut self, other: &Kernel<T>) -> (r: bool)
        ensures
            final(self)@.1 == kernel_merge(old(self)@.1, old(self)@.0, other@.1, other@.0),
            forall|x: Dot|
                #[trigger] dvv_has(final(self)@.0, x) == (dvv_has(old(self)@.0, x) || dvv_has(other@.0, x)),
            dvv_compact(final(self)@.0),
            clock_wf(final(self)@.0.0),
            final(self)@.0 == dvv_join(old(self)@.0, other@.0),
            final(self)@.2 == old(self)@.2,
            r == (gained_keys(old(self)@.1, old(self)@.0, other@.1) != Set::<T::V>::empty() || dropped_keys(
                old(self)@.1,
                old(self)@.0,
                other@.1,
                other@.0,
            ) != Set::<T::V>::empty() || loses_dots(old(self)@.1, other@.1, other@.0) || dvv_gain(
                old(self)@.0,
                other@.0,
            )),
    {
        let (changed, ev) = self.merge_with(other);
        proof {
            lemma_nonempty_reports(ev@);
        }
        changed
    }

    /// Folds in a delta; returns whether the entries changed.
    pub fn merge_delta(&mut self, other: &Delta<T>) -> (r: bool)
        ensures
            final(self)@.1 == delta_stripped(delta_inserted(old(self)@.1, other@.0, old(self)@.0, other@.1), other@.1),
            final(self)@.0 == old(self)@.0,
            final(self)@.2 == old(self)@.2,
            r == (inserted_keys(old(self)@.1, other@.0, old(self)@.0, other@.1) != Set::<T::V>::empty()
                || strips_some(old(self)@.1, other@.1)),
    {
        let (changed, _) = self.merge_with_delta(other);
        changed
    }
}

impl<T: Key> Clone for Kernel<T> {
    fn clone(&self) -> (r: Self)
        ensures
            r@ == self@,
    {
        let delta = match &self.delta {
            Some(d) => Some(d.clone()),
            None => None,
        };
        Kernel { seen: self.seen.clone(), entries: self.entries.clone(), delta }
    }
}

impl<T: Key> Default for Kernel<T> {
    fn default() -> (r: Self)
        ensures
            r@.0.0 == Map::<ReplicaId, u64>::empty(),
            r@.0.1 == Set::<Dot>::empty(),
            r@.1 == Map::<T::V, Set<Dot>>::empty(),
            r@.2 is None,
    {
        Kernel::new()
    }
}

impl<T: Key> Convergent for Kernel<T> {
    open spec fn merged(this: Self::V, other: Self::V) -> Self::V {
        kernel_merged(this, other)
    }

    fn merge(&mut self, other: &Self) -> bool {
        Kernel::merge(self, other)
    }
}

impl<T: Key> DeltaConvergent for Kernel<T> {
    type Delta = Delta<T>;

    open spec fn delta_merged(this: Self::V, delta: (Map<T::V, Set<Dot>>, Set<Dot>)) -> Self::V {
        kernel_delta_merged(this, delta)
    }

    open spec fn pending(this: Self::V) -> Option<(Map<T::V, Set<Dot>>, Set<Dot>)> {
        this.2
    }

    open spec fn handed_out(this: Self::V) -> Self::V {
        (this.0, this.1, None)
    }

    fn delta(&mut self) -> Option<Delta<T>> {
        Kernel::delta(self)
    }

    fn merge_delta(&mut self, other: &Delta<T>) -> bool {
        Kernel::merge_delta(self, other)
    }
}

impl<T: Key> ReplicaState for Kernel<T> {
    open spec fn initial() -> Self::V {
        ((Map::empty(), Set::empty()), Map::empty(), None)
    }

    fn initial_state() -> (r: Self) {
        Kernel::new()
    }

    fn duplicate(&self) -> (r: Self) {
        self.clone()
    }
}

} // verus!
