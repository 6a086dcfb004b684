use yonodex::clock::{compare, merge, tick, ClockOrdering, VectorClock};

fn clock(entries: &[(&str, u64)]) -> VectorClock {
    let mut c = VectorClock::new();
    for (k, v) in entries {
        c.set(k, *v);
    }
    c
}

#[test]
fn tick_starts_a_missing_peer_at_one() {
    let mut c = VectorClock::new();
    tick(&mut c, "alice");
    assert_eq!(c.get("alice"), 1);
    tick(&mut c, "alice");
    tick(&mut c, "bob");
    assert_eq!(c.get("alice"), 2);
    assert_eq!(c.get("bob"), 1);
    assert_eq!(c.get("carol"), 0);
    assert_eq!(c.len(), 2);
}

#[test]
fn tick_moves_the_clock_forward() {
    let before = clock(&[("a", 3), ("b", 1)]);
    let mut after = before.clone();
    tick(&mut after, "b");
    assert_eq!(compare(&before, &after), ClockOrdering::Before);
    assert_eq!(compare(&after, &before), ClockOrdering::After);
}

#[test]
fn merge_takes_elementwise_max() {
    let a = clock(&[("a", 3), ("b", 1)]);
    let b = clock(&[("b", 4), ("c", 2)]);
    let m = merge(&a, &b);
    assert_eq!(m.get("a"), 3);
    assert_eq!(m.get("b"), 4);
    assert_eq!(m.get("c"), 2);
    assert_eq!(m.len(), 3);
}

#[test]
fn merge_is_commutative_and_idempotent() {
    let a = clock(&[("x", 5), ("y", 0), ("z", 7)]);
    let b = clock(&[("y", 2), ("z", 1), ("w", 9)]);
    let ab = merge(&a, &b);
    let ba = merge(&b, &a);
    assert_eq!(compare(&ab, &ba), ClockOrdering::Equal);
    for k in ["x", "y", "z", "w"] {
        assert_eq!(ab.get(k), ba.get(k));
    }
    let aa = merge(&a, &a);
    assert_eq!(compare(&aa, &a), ClockOrdering::Equal);
}

#[test]
fn merge_is_associative() {
    let a = clock(&[("x", 1)]);
    let b = clock(&[("x", 3), ("y", 1)]);
    let c = clock(&[("y", 4), ("z", 2)]);
    let l = merge(&merge(&a, &b), &c);
    let r = merge(&a, &merge(&b, &c));
    assert_eq!(compare(&l, &r), ClockOrdering::Equal);
    assert_eq!(l.get("x"), 3);
    assert_eq!(l.get("y"), 4);
    assert_eq!(l.get("z"), 2);
}

#[test]
fn a_clock_is_not_after_its_merge() {
    let a = clock(&[("x", 1), ("y", 8)]);
    let b = clock(&[("x", 2)]);
    let m = merge(&a, &b);
    assert_eq!(compare(&a, &m), ClockOrdering::Before);
    assert_eq!(compare(&m, &m), ClockOrdering::Equal);
}

#[test]
fn compare_outcomes() {
    let a = clock(&[("a", 1), ("b", 2)]);
    let b = clock(&[("a", 1), ("b", 3)]);
    let c = clock(&[("a", 2), ("b", 1)]);
    assert_eq!(compare(&a, &b), ClockOrdering::Before);
    assert_eq!(compare(&b, &a), ClockOrdering::After);
    assert_eq!(compare(&a, &a.clone()), ClockOrdering::Equal);
    assert_eq!(compare(&a, &c), ClockOrdering::Concurrent);
    assert_eq!(compare(&c, &a), ClockOrdering::Concurrent);
}

#[test]
fn missing_peers_count_as_zero() {
    let a = clock(&[("a", 0)]);
    let empty = VectorClock::new();
    assert_eq!(compare(&a, &empty), ClockOrdering::Equal);
    let b = clock(&[("b", 1)]);
    assert_eq!(compare(&empty, &b), ClockOrdering::Before);
}

#[test]
fn clock_entries_are_in_ascending_peer_order() {
    let c = clock(&[("m", 1), ("b", 2), ("z", 3), ("a", 4)]);
    let keys: Vec<&str> = (0..c.len()).map(|i| c.entry_at(i).0).collect();
    assert_eq!(keys, vec!["a", "b", "m", "z"]);
    assert_eq!(c.find("m"), Some(2));
    assert_eq!(c.find("q"), None);
}
