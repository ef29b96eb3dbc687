use causal_crdt::hlc::HybridTime;
use causal_crdt::lww_register::LWWRegister;
use causal_crdt::or_map::ORMap;
use causal_crdt::or_set::ORSet;
use causal_crdt::vtime::ReplicaId;
use std::collections::{BTreeMap, BTreeSet};

const A: ReplicaId = 1;
const B: ReplicaId = 2;
const C: ReplicaId = 3;

fn set_of<T: Ord>(v: Vec<T>) -> BTreeSet<T> {
    v.into_iter().collect()
}

fn registers(m: &ORMap<&'static str, LWWRegister<u32>>) -> BTreeMap<&'static str, Option<u32>> {
    m.value().into_iter().map(|(k, v)| (k, v.value())).collect()
}

fn sets(m: &ORMap<&'static str, ORSet<u32>>) -> BTreeMap<&'static str, BTreeSet<u32>> {
    m.value().into_iter().map(|(k, v)| (k, set_of(v.value()))).collect()
}

#[test]
fn orset_identity() {
    let a: ORSet<u32> = ORSet::default();
    assert!(a.is_empty());
    assert_eq!(set_of(a.value()), BTreeSet::new());
}

#[test]
fn orset_idempotency() {
    let mut a = ORSet::default();
    a.insert(A, "hello");

    let b = a.clone();

    let mut expected = BTreeSet::new();
    expected.insert("hello");
    assert_eq!(set_of(a.value()), expected);
    assert!(!a.merge(&b));
    assert_eq!(set_of(a.value()), expected);
}

#[test]
fn orset_associativity() {
    let mut a = ORSet::default();
    a.insert(A, "A");
    let mut b = ORSet::default();
    b.insert(B, "B");
    let mut c = ORSet::default();
    c.insert(C, "C");

    let mut a2 = a.clone();
    let mut b2 = b.clone();
    let c2 = c.clone();

    let mut expected = BTreeSet::new();
    expected.insert("A");
    expected.insert("B");
    expected.insert("C");

    assert!(a.merge(&b));
    assert!(a.merge(&c));
    assert_eq!(set_of(a.value()), expected);

    assert!(b2.merge(&c2));
    assert!(a2.merge(&b2));
    assert_eq!(set_of(a2.value()), expected);

    assert!(!a.merge(&a2));
}

#[test]
fn or_set_orset_commutativity() {
    let mut a = ORSet::default();
    a.insert(A, "A");
    let mut b = ORSet::default();
    b.insert(B, "B");

    let a2 = a.clone();
    let mut b2 = b.clone();

    let mut expected = BTreeSet::new();
    expected.insert("A");
    expected.insert("B");

    assert!(a.merge(&b));
    assert_eq!(set_of(a.value()), expected);

    assert!(b2.merge(&a2));
    assert_eq!(set_of(b2.value()), expected);

    assert!(!a.merge(&b2));
}

#[test]
fn orset_add_wins() {
    let mut a = ORSet::default();
    a.insert(A, "A");
    let mut b = ORSet::default();
    b.insert(B, "B");

    assert!(a.merge(&b));

    a.insert(A, "B");
    b.remove(&"B");

    let mut expected = BTreeSet::new();
    expected.insert("A");
    expected.insert("B");

    assert!(a.merge(&b));
    assert_eq!(set_of(a.value()), expected);
}

#[test]
fn orset_seen_remove_wins_over_old_add() {
    let mut a = ORSet::default();
    a.insert(A, "k");
    let mut b = a.clone();
    b.remove(&"k");
    let a0 = a.clone();
    assert!(a.merge(&b));
    assert!(a.value().is_empty());
    assert!(!b.merge(&a0));
    assert!(b.value().is_empty());
}

#[test]
fn orset_delta_applied_twice_reports_once() {
    let mut a = ORSet::default();
    a.insert(A, 5u32);
    let d = a.delta().expect("orset delta");
    let mut b = ORSet::default();
    assert!(b.merge_delta(&d));
    assert!(!b.merge_delta(&d));
    assert_eq!(b.value(), vec![5u32]);
}

#[test]
fn orset_concurrent_add_survives_unseen_remove() {
    let mut a = ORSet::default();
    a.insert(A, "x");
    let mut b = ORSet::default();
    b.insert(B, "y");
    b.remove(&"y");
    assert!(a.merge(&b));
    assert_eq!(set_of(a.value()), set_of(vec!["x"]));
    assert_eq!(a.len(), 1);
}

#[test]
fn orset_delta_round_trip() {
    let mut a = ORSet::default();
    a.insert(A, 1u32);
    a.insert(A, 2u32);
    let mut b = ORSet::default();
    let d = a.delta().expect("orset delta");
    assert!(d.has_inserts());
    assert!(!d.has_removals());
    assert_eq!(set_of(d.keys()), set_of(vec![1u32, 2]));
    assert!(b.merge_delta(&d));
    assert_eq!(set_of(b.value()), set_of(vec![1u32, 2]));
    a.remove(&1);
    let d = a.delta().expect("orset delta");
    assert!(d.has_removals());
    assert!(b.merge_delta(&d));
    assert!(!b.merge_delta(&d));
    assert_eq!(set_of(b.value()), set_of(vec![2u32]));
}

#[test]
fn ormap_identity() {
    let a: ORMap<&str, LWWRegister<u32>> = ORMap::default();
    assert!(a.is_empty());
    assert_eq!(registers(&a), BTreeMap::new())
}

#[test]
fn ormap_idempotency() {
    let mut a = ORMap::default();
    let e = a.entry("key").or_insert(A, LWWRegister::with_hybrid_clock());
    e.assign(A, 1, HybridTime::new(16));

    let b = a.clone();

    let mut expected = BTreeMap::new();
    expected.insert("key", Some(1));

    assert_eq!(registers(&a), expected);
    assert!(!a.merge(&b));
    assert_eq!(registers(&a), expected);
}

#[test]
fn ormap_associativity() {
    let mut a: ORMap<&str, ORSet<u32>> = ORMap::default();
    a.entry("key").or_default(A).insert(A, 1);
    let mut b: ORMap<&str, ORSet<u32>> = ORMap::default();
    b.entry("key").or_default(B).insert(B, 2);
    let mut c: ORMap<&str, ORSet<u32>> = ORMap::default();
    c.entry("key").or_default(C).insert(C, 3);

    let mut a2 = a.clone();
    let mut b2 = b.clone();
    let c2 = c.clone();

    let mut expected = BTreeMap::new();
    expected.insert("key", vec![1, 2, 3].into_iter().collect::<BTreeSet<u32>>());

    assert!(a.merge(&b));
    assert!(a.merge(&c));
    assert_eq!(sets(&a), expected);

    assert!(b2.merge(&c2));
    assert!(a2.merge(&b2));
    assert_eq!(sets(&a), expected);

    assert!(!a.merge(&a2));
}

#[test]
fn or_map_orset_commutativity() {
    let mut a: ORMap<&str, ORSet<u32>> = ORMap::default();
    a.entry("key").or_default(A).insert(A, 1);
    let mut b: ORMap<&str, ORSet<u32>> = ORMap::default();
    b.entry("key").or_default(B).insert(B, 2);

    let a2 = a.clone();
    let mut b2 = b.clone();

    let mut expected = BTreeMap::new();
    expected.insert("key", vec![1, 2].into_iter().collect::<BTreeSet<u32>>());

    assert!(a.merge(&b));
    assert_eq!(sets(&a), expected);

    assert!(b2.merge(&a2));
    assert_eq!(sets(&a), expected);

    assert!(!a.merge(&b2));
}

#[test]
fn ormap_remove_and_delta() {
    let mut a: ORMap<&str, ORSet<u32>> = ORMap::default();
    a.entry("x").or_default(A).insert(A, 1);
    a.entry("y").or_default(A).insert(A, 2);
    assert_eq!(a.len(), 2);
    let d = a.delta().expect("ormap delta");
    let mut b: ORMap<&str, ORSet<u32>> = ORMap::default();
    assert!(b.merge_delta(&d));
    assert_eq!(sets(&b), sets(&a));
    assert!(a.remove(&"x").is_some());
    assert!(a.remove(&"x").is_none());
    assert!(a.get(&"x").is_none());
    assert!(a.get(&"y").is_some());
    let d = a.delta().expect("ormap delta");
    assert!(b.merge_delta(&d));
    let mut expected = BTreeMap::new();
    expected.insert("y", vec![2].into_iter().collect::<BTreeSet<u32>>());
    assert_eq!(sets(&b), expected);
}

#[test]
fn ormap_entry_edits() {
    let mut a: ORMap<&str, ORSet<u32>> = ORMap::default();
    let e = a.entry("k");
    assert_eq!(*e.key(), "k");
    e.and_modify(A, |s| s.insert(A, 9)).or_insert_with(A, ORSet::default).insert(A, 1);
    a.entry("k").and_modify(A, |s| s.insert(A, 2));
    a.entry("j").or_insert_with_key(B, |_k| ORSet::default()).insert(B, 7);
    let mut expected = BTreeMap::new();
    expected.insert("k", vec![1, 2].into_iter().collect::<BTreeSet<u32>>());
    expected.insert("j", vec![7].into_iter().collect::<BTreeSet<u32>>());
    assert_eq!(sets(&a), expected);
    assert_eq!(a.len(), 2);
}

#[test]
fn ormap_remove_returns_value_and_delta_carries_values() {
    let mut a: ORMap<&str, ORSet<u32>> = ORMap::default();
    a.entry("k").or_default(A).insert(A, 4);
    let d = a.delta().expect("ormap delta");
    let mut b: ORMap<&str, ORSet<u32>> = ORMap::default();
    assert!(b.merge_delta(&d));
    assert_eq!(set_of(b.get(&"k").expect("value").value()), set_of(vec![4u32]));
    let removed = a.remove(&"k").expect("removed value");
    assert_eq!(set_of(removed.value()), set_of(vec![4u32]));
}
