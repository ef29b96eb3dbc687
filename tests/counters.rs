use causal_crdt::bcounter::{BCounter, BCounterError};
use causal_crdt::gcounter::GCounter;
use causal_crdt::pncounter::PNCounter;
use causal_crdt::vtime::ReplicaId;

const A: ReplicaId = 1;
const B: ReplicaId = 2;
const C: ReplicaId = 3;

#[test]
fn gcounter_identity() {
    let a = GCounter::default();
    assert_eq!(a.value(), 0);
    assert!(a.is_empty());
}

#[test]
fn gcounter_idempotency() {
    let mut a = GCounter::default();
    a.add(A, 2);
    a.add(B, 1);

    let b = a.clone();

    assert_eq!(a.value(), 3);
    assert!(!a.merge(&b));
    assert_eq!(a.value(), 3);
}

#[test]
fn gcounter_associativity() {
    let mut a = GCounter::default();
    a.add(A, 2);
    let mut b = GCounter::default();
    b.add(B, 1);
    let mut c = GCounter::default();
    c.add(C, 3);

    let mut a2 = a.clone();
    let mut b2 = b.clone();
    let c2 = c.clone();

    assert!(a.merge(&b));
    assert!(a.merge(&c));
    assert_eq!(a.value(), 6);

    assert!(b2.merge(&c2));
    assert!(a2.merge(&b2));
    assert_eq!(a2.value(), 6);

    assert!(!a.merge(&a2));
}

#[test]
fn gcounter_commutativity() {
    let mut a = GCounter::default();
    a.add(A, 2);
    let mut b = GCounter::default();
    b.add(B, 1);

    let a2 = a.clone();
    let mut b2 = b.clone();

    assert!(a.merge(&b));
    assert_eq!(a.value(), 3);

    assert!(b2.merge(&a2));
    assert_eq!(b2.value(), 3);

    assert!(!a.merge(&b2));
}

#[test]
fn gcounter_delta() {
    let mut a = GCounter::default();
    let mut b = GCounter::default();

    a.add(A, 2);

    let delta = a.delta().expect("a: delta");
    assert!(b.merge_delta(&delta));
    assert_eq!(a.value(), b.value());

    assert!(a.delta().is_none());

    a.add(A, 1);
    let delta = a.delta().expect("a: delta");
    assert!(b.merge_delta(&delta));
    assert_eq!(a.value(), b.value());
}

#[test]
fn gcounter_convergence_all_orders() {
    let mut a = GCounter::default();
    a.add(A, 2);
    let mut b = GCounter::default();
    b.add(B, 1);
    let mut c = GCounter::default();
    c.add(C, 3);
    let (a0, b0, c0) = (a.clone(), b.clone(), c.clone());

    assert!(a.merge(&b0));
    assert!(a.merge(&c0));
    assert!(b.merge(&c0));
    assert!(b.merge(&a0));
    assert!(c.merge(&a0));
    assert!(c.merge(&b0));
    assert_eq!(a.value(), 6);
    assert_eq!(b.value(), 6);
    assert_eq!(c.value(), 6);
    assert!(!a.merge(&b));
    assert!(!b.merge(&c));
    assert!(!c.merge(&a));
}

#[test]
fn gcounter_repeated_delta_is_idempotent() {
    let mut a = GCounter::default();
    let mut b = GCounter::default();
    a.add(A, 4);
    let d = a.delta().expect("a: delta");
    assert!(b.merge_delta(&d));
    assert!(!b.merge_delta(&d));
    assert_eq!(b.value(), 4);
    assert_eq!(b.get(&A), 4);
    assert_eq!(b.get(&B), 0);
}

#[test]
fn pncounter_identity() {
    let a = PNCounter::default();
    assert_eq!(a.value(), 0);
    assert!(a.is_empty());
}

#[test]
fn pncounter_idempotency() {
    let mut a = PNCounter::default();
    a.add(A, 2);
    a.add(B, -1);

    let b = a.clone();

    assert_eq!(a.value(), 1);
    assert!(!a.merge(&b));
    assert_eq!(a.value(), 1);
}

#[test]
fn pncounter_associativity() {
    let mut a = PNCounter::default();
    a.add(A, 5);
    let mut b = PNCounter::default();
    b.add(B, 1);
    let mut c = PNCounter::default();
    c.add(C, -3);

    let mut a2 = a.clone();
    let mut b2 = b.clone();
    let c2 = c.clone();

    assert!(a.merge(&b));
    assert!(a.merge(&c));
    assert_eq!(a.value(), 3);

    assert!(b2.merge(&c2));
    assert!(a2.merge(&b2));
    assert_eq!(a2.value(), 3);

    assert!(!a.merge(&a2));
}

#[test]
fn pncounter_commutativity() {
    let mut a = PNCounter::default();
    a.add(A, -2);
    let mut b = PNCounter::default();
    b.add(B, 1);

    let a2 = a.clone();
    let mut b2 = b.clone();

    assert!(a.merge(&b));
    assert_eq!(a.value(), -1);

    assert!(b2.merge(&a2));
    assert_eq!(b2.value(), -1);

    assert!(!a.merge(&b2));
}

#[test]
fn pncounter_delta() {
    let mut a = PNCounter::default();
    let mut b = PNCounter::default();

    a.add(A, 2);

    let delta = a.delta().expect("a: delta");
    assert!(b.merge_delta(&delta));
    assert_eq!(a.value(), b.value());

    assert!(a.delta().is_none());

    a.add(A, -1);
    let delta = a.delta().expect("a: delta");
    assert!(b.merge_delta(&delta));
    assert_eq!(a.value(), b.value());
}

#[test]
fn pncounter_signed_value_and_get() {
    let mut a = PNCounter::default();
    a.add(A, -2);
    assert_eq!(a.value(), -2);
    assert_eq!(a.get(&A), -2);
    a.add(A, 0);
    assert!(a.delta().is_some());
    a.add(A, 0);
    assert!(a.delta().is_none());
    let mut b = PNCounter::default();
    b.add(B, i64::MIN + 1);
    assert_eq!(b.get(&B), i64::MIN + 1);
    assert_eq!(b.value(), i64::MIN + 1);
}

#[test]
fn bcounter_identity() {
    let a = BCounter::default();
    assert_eq!(a.value(), 0);
}

#[test]
fn bcounter_idempotency() {
    let mut a = BCounter::default();
    assert!(a.add(A, 2).is_ok());
    assert!(a.add(A, -1).is_ok());

    let b = a.clone();

    assert_eq!(a.value(), 1);
    assert!(!a.merge(&b));
    assert_eq!(a.value(), 1);
}

#[test]
fn bcounter_associativity() {
    let mut a = BCounter::default();
    assert!(a.add(A, 5).is_ok());
    let mut b = BCounter::default();
    assert!(b.add(B, 1).is_ok());
    let mut c = BCounter::default();
    assert!(c.add(C, 3).is_ok());

    let mut a2 = a.clone();
    let mut b2 = b.clone();
    let c2 = c.clone();

    assert!(a.merge(&b));
    assert!(a.merge(&c));
    assert_eq!(a.value(), 9);

    assert!(b2.merge(&c2));
    assert!(a2.merge(&b2));
    assert_eq!(a2.value(), 9);

    assert!(!a.merge(&a2));
}

#[test]
fn bcounter_commutativity() {
    let mut a = BCounter::default();
    assert!(a.add(A, 2).is_ok());
    let mut b = BCounter::default();
    assert!(b.add(B, 1).is_ok());

    let a2 = a.clone();
    let mut b2 = b.clone();

    assert!(a.merge(&b));
    assert_eq!(a.value(), 3);

    assert!(b2.merge(&a2));
    assert_eq!(b2.value(), 3);

    assert!(!a.merge(&b2));
}

#[test]
fn bcounter_transfer() {
    let mut a = BCounter::default();
    assert!(a.add(A, 5).is_ok());
    let mut b = BCounter::default();
    assert!(b.add(B, 1).is_ok());
    assert!(b.add(B, -3).is_err());

    assert!(a.transfer(A, B, 6).is_err());
    assert!(a.transfer(A, B, 2).is_ok());

    assert_eq!(a.value(), 5);
    assert_eq!(b.value(), 1);

    assert!(b.merge(&a));
    assert_eq!(b.value(), 6);

    assert!(b.add(B, -3).is_ok());
    assert_eq!(b.value(), 3);
}

#[test]
fn bcounter_non_negative() {
    let mut a = BCounter::default();
    assert!(a.add(A, 3).is_ok());
    let mut b = BCounter::default();
    assert!(b.add(B, 2).is_ok());

    let da = a.delta().expect("bcounter delta: a");
    assert!(b.merge_delta(&da));

    assert!(a.add(A, -3).is_ok());
    assert!(b.add(A, -5).is_err());

    let db = b.delta().expect("bcounter delta: b");
    assert!(a.merge_delta(&db));

    assert_eq!(a.value(), 2);
}

#[test]
fn bcounter_quota_and_self_transfer() {
    let mut a = BCounter::default();
    assert!(a.add(A, 5).is_ok());
    let mut b = BCounter::default();
    assert!(b.add(B, 1).is_ok());
    assert_eq!(
        b.add(B, -3),
        Err(BCounterError::QuotaExceeded { replica: B, requested: 3, available: 1 })
    );
    assert_eq!(
        a.transfer(A, A, 6),
        Err(BCounterError::QuotaExceeded { replica: A, requested: 6, available: 5 })
    );
    assert!(a.transfer(A, A, 5).is_err());
    assert!(a.transfer(A, B, 2).is_ok());
    assert_eq!(a.quota(&A), 3);
    assert_eq!(a.quota(&B), 2);
    assert!(b.merge(&a));
    assert_eq!(b.quota(&B), 3);
    assert!(b.add(B, -3).is_ok());
    assert_eq!(b.quota(&B), 0);
}

#[test]
fn bcounter_delta_carries_transfers() {
    let mut a = BCounter::default();
    assert!(a.add(A, 4).is_ok());
    assert!(a.transfer(A, B, 1).is_ok());
    let d = a.delta().expect("bcounter delta: a");
    assert!(a.delta().is_none());
    let mut b = BCounter::default();
    assert!(b.merge_delta(&d));
    assert!(!b.merge_delta(&d));
    assert_eq!(b.quota(&B), 1);
    assert_eq!(b.quota(&A), 3);
    assert_eq!(b.value(), 4);
}
