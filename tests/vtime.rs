use causal_crdt::vtime::{ReplicaId, VTime};
use std::cmp::Ordering;

const A: ReplicaId = 1;
const B: ReplicaId = 2;
const C: ReplicaId = 3;

fn vtime(a: u64, b: u64, c: u64) -> VTime {
    let mut ts = VTime::default();
    ts.inc_by(A, a);
    ts.inc_by(B, b);
    ts.inc_by(C, c);
    ts
}

#[test]
fn vtime_partial_cmp() {
    let cases = vec![
        (vtime(0, 0, 0), vtime(0, 0, 0), Some(Ordering::Equal)),
        (vtime(1, 2, 3), vtime(1, 2, 3), Some(Ordering::Equal)),
        (vtime(1, 2, 3), vtime(1, 2, 0), Some(Ordering::Greater)),
        (vtime(1, 3, 3), vtime(1, 2, 3), Some(Ordering::Greater)),
        (vtime(1, 0, 0), vtime(1, 2, 0), Some(Ordering::Less)),
        (vtime(1, 2, 2), vtime(1, 2, 3), Some(Ordering::Less)),
        (vtime(1, 2, 3), vtime(3, 2, 1), None),
        (vtime(1, 0, 1), vtime(1, 1, 0), None),
    ];

    for (left, right, expected) in cases {
        assert_eq!(left.partial_cmp(&right), expected);
    }
}

#[test]
fn vtime_merge() {
    fn assert_merge(mut left: VTime, right: VTime, expected: VTime, changed: bool) {
        assert_eq!(left.merge(&right), changed);
        assert_eq!(left, expected);
    }

    assert_merge(vtime(0, 0, 0), vtime(0, 0, 0), vtime(0, 0, 0), false);
    assert_merge(vtime(2, 2, 3), vtime(1, 2, 0), vtime(2, 2, 3), false);
    assert_merge(vtime(1, 3, 3), vtime(1, 2, 4), vtime(1, 3, 4), true);
    assert_merge(vtime(1, 0, 1), vtime(1, 1, 0), vtime(1, 1, 1), true);
}

#[test]
fn vtime_zip() {
    let cases = vec![
        (vtime(0, 0, 0), vtime(0, 0, 0), vec![]),
        (vtime(1, 2, 3), vtime(1, 2, 0), vec![(A, 1, 1), (B, 2, 2), (C, 3, 0)]),
        (vtime(1, 3, 3), vtime(1, 2, 3), vec![(A, 1, 1), (B, 3, 2), (C, 3, 3)]),
        (vtime(1, 0, 1), vtime(1, 1, 0), vec![(A, 1, 1), (B, 0, 1), (C, 1, 0)]),
    ];

    for (left, right, expected) in cases {
        let zipped = left.zip(&right);
        assert_eq!(zipped, expected);
    }
}

#[test]
fn vtime_partial_cmp_key_sets_differ() {
    let mut a = VTime::new();
    a.inc(A);
    a.inc(C);
    let b = vtime(1, 1, 1);
    assert_eq!(a.partial_cmp(&b), Some(Ordering::Less));
    assert_eq!(b.partial_cmp(&a), Some(Ordering::Greater));
}

#[test]
fn vtime_inc_by_returns_dot() {
    let mut t = VTime::new();
    let d = t.inc_by(A, 5);
    assert_eq!(d.id(), A);
    assert_eq!(d.seq_nr(), 5);
    let d = t.inc(A);
    assert_eq!(d.seq_nr(), 6);
    let d = t.inc_by(A, 0);
    assert_eq!(d.seq_nr(), 6);
    assert_eq!(t.get(&A), 6);
    assert_eq!(t.get(&B), 0);
}

#[test]
fn vtime_set_and_contains() {
    let mut t = VTime::new();
    assert!(t.is_empty());
    assert!(t.set(causal_crdt::vtime::Dot::new(B, 4)));
    assert!(!t.set(causal_crdt::vtime::Dot::new(B, 3)));
    assert_eq!(t.get(&B), 4);
    assert!(t.contains(&causal_crdt::vtime::Dot::new(B, 4)));
    assert!(!t.contains(&causal_crdt::vtime::Dot::new(B, 5)));
    assert!(!t.set(causal_crdt::vtime::Dot::new(C, 0)));
    assert!(!t.is_empty());
}

#[test]
fn vtime_min_max() {
    let a = vtime(1, 5, 0);
    let b = vtime(3, 2, 4);
    assert_eq!(a.min(&b), vtime(1, 2, 0));
    assert_eq!(a.max(&b), vtime(3, 5, 4));
}

#[test]
fn vtime_sum() {
    assert_eq!(vtime(1, 2, 3).sum(), 6);
    assert_eq!(VTime::new().sum(), 0);
}

#[test]
fn vtime_iter_in_replica_order() {
    let t = vtime(0, 7, 2);
    assert_eq!(t.iter(), vec![(B, 7), (C, 2)]);
    assert!(VTime::new().iter().is_empty());
}
