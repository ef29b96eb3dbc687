use causal_crdt::hlc::HybridTime;
use causal_crdt::lww_register::LWWRegister;
use causal_crdt::mv_register::MVRegister;
use causal_crdt::vtime::ReplicaId;

const A: ReplicaId = 1;
const B: ReplicaId = 2;
const C: ReplicaId = 3;

fn at(t: u64) -> HybridTime {
    HybridTime::new(t)
}

fn sorted<T: Ord>(mut v: Vec<T>) -> Vec<T> {
    v.sort();
    v
}

#[test]
fn lww_register_identity() {
    let a: LWWRegister<u32> = LWWRegister::with_hybrid_clock();
    assert!(a.is_empty());
    assert_eq!(a.value(), None);
}

#[test]
fn lww_register_idempotency() {
    let mut a = LWWRegister::with_hybrid_clock();
    a.assign(A, "hello", at(16));

    let b = a.clone();

    assert_eq!(a.value(), Some("hello"));
    assert!(!a.merge(&b));
    assert_eq!(a.value(), Some("hello"));
}

#[test]
fn lww_register_associativity() {
    let mut a = LWWRegister::with_hybrid_clock();
    a.assign(A, "A", at(16));
    let mut b = LWWRegister::with_hybrid_clock();
    b.assign(B, "B", at(17));
    let mut c = LWWRegister::with_hybrid_clock();
    c.assign(C, "C", at(18));

    let mut a2 = a.clone();
    let mut b2 = b.clone();
    let c2 = c.clone();

    assert!(a.merge(&b));
    assert!(a.merge(&c));
    assert_eq!(a.value(), Some("C"));

    assert!(b2.merge(&c2));
    assert!(a2.merge(&b2));
    assert_eq!(a2.value(), Some("C"));

    assert!(!a.merge(&a2));
}

#[test]
fn lww_register_commutativity() {
    let mut a = LWWRegister::with_hybrid_clock();
    a.assign(A, "A", at(16));
    let mut b = LWWRegister::with_hybrid_clock();
    b.assign(B, "B", at(17));

    let a2 = a.clone();
    let mut b2 = b.clone();

    assert!(a.merge(&b));
    assert_eq!(a.value(), Some("B"));

    assert!(!b2.merge(&a2));
    assert_eq!(b2.value(), Some("B"));

    assert!(!a.merge(&b2));
}

#[test]
fn lww_register_same_tick_tie_break() {
    let mut a = LWWRegister::with_hybrid_clock();
    a.assign(1, "one", at(32));
    let mut b = LWWRegister::with_hybrid_clock();
    b.assign(2, "two", at(32));
    let a0 = a.clone();
    assert!(!a.merge(&b));
    assert_eq!(a.value(), Some("one"));
    assert!(b.merge(&a0));
    assert_eq!(b.value(), Some("one"));

    let mut r = LWWRegister::with_hybrid_clock();
    r.assign(1, "one", at(32));
    r.assign(2, "two", at(32));
    assert_eq!(r.value(), Some("two"));
    r.assign(1, "again", at(32));
    assert_eq!(r.value(), Some("two"));
    r.assign(1, "older", at(31));
    assert_eq!(r.value(), Some("two"));
    r.assign(1, "newer", at(33));
    assert_eq!(r.value(), Some("newer"));
}

#[test]
fn lww_register_delta_is_current_write() {
    let mut a = LWWRegister::with_hybrid_clock();
    assert!(a.delta().is_none());
    a.assign(A, 7u32, at(5));
    let d = a.delta().expect("lww delta");
    assert!(a.delta().is_some());
    let mut b = LWWRegister::with_hybrid_clock();
    assert!(b.merge_delta(&d));
    assert!(!b.merge_delta(&d));
    assert_eq!(b.value(), Some(7));
}

#[test]
fn mv_register_identity() {
    let a: MVRegister<u32> = MVRegister::default();
    let expected: Vec<u32> = Vec::new();
    assert!(a.is_empty());
    assert_eq!(a.value(), expected);
}

#[test]
fn mv_register_idempotency() {
    let mut a = MVRegister::default();
    a.assign(A, "hello");

    let b = a.clone();

    assert_eq!(a.value(), vec!["hello"]);
    assert!(!a.merge(&b));
    assert_eq!(a.value(), vec!["hello"]);
}

#[test]
fn mv_register_associativity() {
    let mut a = MVRegister::default();
    a.assign(A, "A");
    let mut b = MVRegister::default();
    b.assign(B, "B");
    let mut c = MVRegister::default();
    c.assign(C, "C");

    let mut a2 = a.clone();
    let mut b2 = b.clone();
    let c2 = c.clone();

    assert!(a.merge(&b));
    assert!(a.merge(&c));
    assert_eq!(sorted(a.value()), vec!["A", "B", "C"]);

    assert!(b2.merge(&c2));
    assert!(a2.merge(&b2));
    assert_eq!(sorted(a2.value()), vec!["A", "B", "C"]);

    assert!(!a.merge(&a2));
}

#[test]
fn mv_register_commutativity() {
    let mut a = MVRegister::default();
    a.assign(A, "A");
    let mut b = MVRegister::default();
    b.assign(B, "B");

    let a2 = a.clone();
    let mut b2 = b.clone();

    assert!(a.merge(&b));
    assert_eq!(sorted(a.value()), vec!["A", "B"]);

    assert!(b2.merge(&a2));
    assert_eq!(sorted(b2.value()), vec!["A", "B"]);

    assert!(!a.merge(&b2));
}

#[test]
fn mv_register_assign_override() {
    let mut a = MVRegister::default();
    a.assign(A, "A");
    let mut b = MVRegister::default();
    b.assign(B, "B");

    assert!(a.merge(&b));
    assert_eq!(sorted(a.value()), vec!["A", "B"]);

    a.assign(A, "C");
    assert_eq!(a.value(), vec!["C"]);

    assert!(b.merge(&a));
    assert_eq!(a.value(), vec!["C"]);
    assert_eq!(b.value(), vec!["C"]);
}

#[test]
fn mv_register_delta() {
    let mut a = MVRegister::default();
    a.assign(A, "A1");
    let mut b = MVRegister::default();

    assert!(b.merge_delta(&a.delta().expect("delta: A")));
    a.assign(A, "A2");
    assert!(b.merge_delta(&a.delta().expect("delta: A (second)")));

    assert_eq!(a.value(), vec!["A2"]);
    assert_eq!(b.value(), vec!["A2"]);
}

#[test]
fn mv_register_concurrent_assign_before_merge() {
    let mut a = MVRegister::default();
    a.assign(A, "A");
    let mut b = MVRegister::default();
    b.assign(B, "B");
    a.assign(A, "C");
    assert!(a.merge(&b));
    assert_eq!(sorted(a.value()), vec!["B", "C"]);
}
