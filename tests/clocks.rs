use causal_crdt::commutative::Counter;
use causal_crdt::dotted_version::DottedVersion;
use causal_crdt::event::{Event, Versioned};
use causal_crdt::hlc::HybridTime;
use causal_crdt::mtime::MTime;
use causal_crdt::vtime::{Dot, ReplicaId, VTime};
use std::cmp::Ordering;

const A: ReplicaId = 1;
const B: ReplicaId = 2;

fn vtime(a: u64, b: u64) -> VTime {
    let mut t = VTime::new();
    t.inc_by(A, a);
    t.inc_by(B, b);
    t
}

#[test]
fn hlc_now_is_strictly_increasing() {
    let mut latest = HybridTime::new(0);
    let mut last = 0;
    for wall in [1000u64, 999, 1000, 0, 5000] {
        let t = HybridTime::now(latest, wall);
        assert!(t.ticks() > last);
        assert!(t.ticks() > HybridTime::sys_time(wall));
        last = t.ticks();
        latest = t;
    }
    assert_eq!(HybridTime::now(HybridTime::new(0), 0x1234).ticks(), 0x1231);
    assert_eq!(HybridTime::now(HybridTime::new(0x2000), 0x1234).ticks(), 0x2001);
}

#[test]
fn hlc_sync_moves_past_remote() {
    let latest = HybridTime::new(100);
    let synced = HybridTime::sync(latest, HybridTime::new(10_000));
    assert_eq!(synced.ticks(), 10_000);
    assert!(HybridTime::now(synced, 50).ticks() > 10_000);
    assert_eq!(HybridTime::sync(latest, HybridTime::new(5)).ticks(), 100);
    assert_eq!(HybridTime::sys_time(0x1f), 0x10);
}

#[test]
fn dotted_version_tracks_detached_dots() {
    let mut a = DottedVersion::default();
    let d = a.inc(A);
    assert_eq!(d, Dot::new(A, 1));
    assert!(a.contains(&Dot::new(A, 1)));
    assert!(!a.contains(&Dot::new(A, 2)));
    let mut b = DottedVersion::new();
    assert_eq!(b.inc_by(B, 3), Dot::new(B, 3));
    assert!(a.merge(&b));
    assert!(!a.merge(&b));
    assert!(a.contains(&Dot::new(B, 2)));
    assert!(!a.contains(&Dot::new(B, 4)));
}

#[test]
fn mtime_rows() {
    let mut m = MTime::new();
    assert!(m.get(&A).is_none());
    assert!(m.replace(A, vtime(1, 4)).is_none());
    assert!(m.merge_vtime(B, &vtime(3, 2)));
    assert!(!m.merge_vtime(B, &vtime(1, 1)));
    assert_eq!(m.get(&A), Some(&vtime(1, 4)));
    assert_eq!(m.min(), vtime(1, 2));
    assert_eq!(m.max(), vtime(3, 4));
    assert_eq!(m.replace(A, vtime(5, 5)), Some(vtime(1, 4)));
    let mut n = MTime::new();
    n.replace(B, vtime(4, 0));
    assert!(m.merge(&n));
    assert_eq!(m.get(&B), Some(&vtime(4, 2)));
    assert_eq!(MTime::new().min(), VTime::new());
}

#[test]
fn versioned_order() {
    let earlier = Versioned::new(B, HybridTime::new(9), vtime(1, 0), "x");
    let later = Versioned::new(A, HybridTime::new(1), vtime(1, 1), "y");
    assert_eq!(earlier.cmp(&later), Ordering::Less);
    let left = Versioned::new(A, HybridTime::new(5), vtime(2, 0), "l");
    let right = Versioned::new(B, HybridTime::new(5), vtime(0, 2), "r");
    assert_eq!(left.cmp(&right), Ordering::Less);
    assert_eq!(right.cmp(&left), Ordering::Greater);
    let newer = Versioned::new(A, HybridTime::new(6), vtime(0, 3), "n");
    assert_eq!(newer.cmp(&left), Ordering::Greater);
}

#[test]
fn event_into_versioned() {
    let e = Event::new(A, 3, 7, HybridTime::new(42), vtime(3, 1), vec![1, 2, 3]);
    assert_eq!(e.origin_seq_nr, 3);
    assert_eq!(e.local_seq_nr, 7);
    let v = e.into_versioned(99u8);
    assert_eq!(v.origin, A);
    assert_eq!(v.sys_time, HybridTime::new(42));
    assert_eq!(v.vec_time, vtime(3, 1));
    assert_eq!(v.value, 99);
}

#[test]
fn commutative_counter_starts_at_zero() {
    let c = Counter::default();
    assert_eq!(c.value(), 0);
}

#[test]
fn dotted_version_compress_keeps_seen_dots() {
    let mut a = DottedVersion::new();
    a.inc_by(A, 2);
    a.compress();
    assert!(a.contains(&Dot::new(A, 2)));
    assert!(!a.contains(&Dot::new(A, 3)));
}
