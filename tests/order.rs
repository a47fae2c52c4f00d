use std::cmp::Ordering;

use order_maintenance::{OmError, OrderMaintenance};

fn walk(om: &OrderMaintenance<&'static str>) -> Vec<(&'static str, u64)> {
    let mut out = Vec::new();
    let mut it = om.iter_values_with_tags();
    while let Some(item) = it.next() {
        out.push(item);
    }
    out
}

fn names(om: &OrderMaintenance<&'static str>) -> Vec<&'static str> {
    walk(om).into_iter().map(|(v, _)| v).collect()
}

#[test]
fn basically() {
    let mut om: OrderMaintenance<&'static str> = OrderMaintenance::new();
    assert_eq!(om.len(), 0);
    om.insert_only("bob").unwrap();
    assert_eq!(om.len(), 1);
    om.insert_after(&"bob", "carol").unwrap();
    assert_eq!(om.len(), 2);
    om.insert_after(&"bob", "james").unwrap();
    assert_eq!(om.len(), 3);
    om.insert_after(&"carol", "gene").unwrap();
    assert_eq!(om.len(), 4);
    assert_eq!(om.compare(&"bob", &"carol"), Some(Ordering::Less));
    assert_eq!(om.compare(&"bob", &"james"), Some(Ordering::Less));
    assert_eq!(om.compare(&"bob", &"gene"), Some(Ordering::Less));
    assert_eq!(om.compare(&"james", &"carol"), Some(Ordering::Less));
    assert_eq!(om.compare(&"james", &"gene"), Some(Ordering::Less));
    assert_eq!(om.compare(&"carol", &"gene"), Some(Ordering::Less));
    assert_eq!(om.compare(&"gene", &"gene"), Some(Ordering::Equal));
    assert_eq!(om.compare(&"carol", &"carol"), Some(Ordering::Equal));
    assert_eq!(om.compare(&"james", &"james"), Some(Ordering::Equal));
    assert_eq!(om.compare(&"bob", &"bob"), Some(Ordering::Equal));
    assert_eq!(om.compare(&"carol", &"james"), Some(Ordering::Greater));
}

#[test]
fn scenario_order_reads_back() {
    let mut om: OrderMaintenance<&'static str> = OrderMaintenance::new();
    om.insert_only("bob").unwrap();
    om.insert_after(&"bob", "carol").unwrap();
    om.insert_after(&"bob", "james").unwrap();
    om.insert_after(&"carol", "gene").unwrap();
    assert_eq!(names(&om), vec!["bob", "james", "carol", "gene"]);
    assert!(om.verify_valid_structure());
}

#[test]
fn seeding_twice_is_refused() {
    let mut om: OrderMaintenance<&'static str> = OrderMaintenance::new();
    assert_eq!(om.insert_only("a"), Ok(()));
    assert_eq!(om.insert_only("b"), Err(OmError::NotEmpty));
    assert_eq!(names(&om), vec!["a"]);
    assert_eq!(walk(&om), vec![("a", 0)]);
}

#[test]
fn insert_after_unknown_anchor() {
    let mut om: OrderMaintenance<&'static str> = OrderMaintenance::new();
    assert_eq!(om.insert_after(&"x", "y"), Err(OmError::NoSuchElement));
    om.insert_only("a").unwrap();
    assert_eq!(om.insert_after(&"x", "y"), Err(OmError::NoSuchElement));
    assert_eq!(om.len(), 1);
}

#[test]
fn insert_duplicate_is_refused() {
    let mut om: OrderMaintenance<&'static str> = OrderMaintenance::new();
    om.insert_only("a").unwrap();
    om.insert_after(&"a", "b").unwrap();
    assert_eq!(om.insert_after(&"a", "b"), Err(OmError::Duplicate));
    assert_eq!(om.insert_after(&"a", "a"), Err(OmError::Duplicate));
    assert_eq!(names(&om), vec!["a", "b"]);
}

#[test]
fn compare_absent_is_none() {
    let mut om: OrderMaintenance<&'static str> = OrderMaintenance::new();
    assert_eq!(om.compare(&"a", &"a"), None);
    om.insert_only("a").unwrap();
    assert_eq!(om.compare(&"a", &"z"), None);
    assert_eq!(om.compare(&"z", &"a"), None);
    assert_eq!(om.compare(&"a", &"a"), Some(Ordering::Equal));
}

#[test]
fn remove_then_absent() {
    let mut om: OrderMaintenance<&'static str> = OrderMaintenance::new();
    om.insert_only("a").unwrap();
    om.insert_after(&"a", "b").unwrap();
    om.insert_after(&"b", "c").unwrap();
    assert!(om.remove(&"b"));
    assert_eq!(om.len(), 2);
    assert_eq!(om.compare(&"b", &"a"), None);
    assert_eq!(om.compare(&"c", &"b"), None);
    assert_eq!(om.compare(&"a", &"c"), Some(Ordering::Less));
    assert!(!om.remove(&"b"));
    assert_eq!(om.len(), 2);
    assert!(om.verify_valid_structure());
    assert!(om.verify_list_integrity());
}

#[test]
fn remove_front_moves_front() {
    let mut om: OrderMaintenance<&'static str> = OrderMaintenance::new();
    om.insert_only("a").unwrap();
    om.insert_after(&"a", "b").unwrap();
    assert_eq!(om.front(), Some("a"));
    assert!(om.remove(&"a"));
    assert_eq!(om.front(), Some("b"));
    assert_eq!(names(&om), vec!["b"]);
    assert!(om.remove(&"b"));
    assert_eq!(om.front(), None);
    assert_eq!(om.len(), 0);
    assert_eq!(om.insert_only("c"), Ok(()));
}

#[test]
fn traversal_is_repeatable() {
    let mut om: OrderMaintenance<&'static str> = OrderMaintenance::new();
    om.insert_only("a").unwrap();
    om.insert_after(&"a", "b").unwrap();
    om.insert_after(&"a", "c").unwrap();
    let first = walk(&om);
    let second = walk(&om);
    assert_eq!(first, second);
    assert_eq!(first.len(), 3);
}

#[test]
fn insert_after_last_keeps_order() {
    let labels: Vec<&'static str> =
        (0..2000).map(|i| &*Box::leak(format!("e{}", i).into_boxed_str())).collect();
    let mut om: OrderMaintenance<&'static str> = OrderMaintenance::new();
    om.insert_only(labels[0]).unwrap();
    for i in 1..labels.len() {
        om.insert_after(&labels[i - 1], labels[i]).unwrap();
    }
    assert_eq!(om.len(), 2000);
    assert_eq!(names(&om), labels);
    assert!(om.verify_valid_structure());
}

#[test]
fn repeated_insert_at_one_anchor_rebalances() {
    let labels: Vec<&'static str> =
        (0..300).map(|i| &*Box::leak(format!("n{}", i).into_boxed_str())).collect();
    let mut om: OrderMaintenance<&'static str> = OrderMaintenance::new();
    om.insert_only("anchor").unwrap();
    for l in labels.iter() {
        om.insert_after(&"anchor", *l).unwrap();
        assert!(om.verify_valid_structure());
        assert!(om.verify_list_integrity());
    }
    let order = names(&om);
    assert_eq!(order[0], "anchor");
    let mut expected: Vec<&'static str> = labels.iter().rev().cloned().collect();
    expected.insert(0, "anchor");
    assert_eq!(order, expected);
    let tags: Vec<u64> = walk(&om).into_iter().map(|(_, t)| t).collect();
    for w in tags.windows(2) {
        assert!(w[0] < w[1]);
    }
}

#[test]
fn first_collision_spreads_tags() {
    let mut om: OrderMaintenance<&'static str> = OrderMaintenance::new();
    om.insert_only("a").unwrap();
    om.insert_after(&"a", "b").unwrap();
    assert_eq!(walk(&om), vec![("a", 0), ("b", 1)]);
    om.insert_after(&"a", "c").unwrap();
    let w = walk(&om);
    assert_eq!(names(&om), vec!["a", "c", "b"]);
    assert!(w[0].1 < w[1].1 && w[1].1 < w[2].1);
    assert!(w[2].1 > 2);
}

#[test]
fn insert_after_last_wraps_to_front() {
    let mut om: OrderMaintenance<&'static str> = OrderMaintenance::new();
    om.insert_only("a").unwrap();
    om.insert_after(&"a", "b").unwrap();
    om.insert_after(&"b", "c").unwrap();
    assert_eq!(walk(&om), vec![("a", 0), ("b", 1), ("c", 2)]);
    assert_eq!(om.compare(&"c", &"a"), Some(Ordering::Greater));
}

#[test]
fn rebalance_spacing_exact() {
    let mut om: OrderMaintenance<&'static str> = OrderMaintenance::new();
    om.insert_only("a").unwrap();
    om.insert_after(&"a", "b").unwrap();
    om.insert_after(&"a", "c").unwrap();
    assert_eq!(
        walk(&om),
        vec![("a", 0), ("c", 183251937962), ("b", 366503875924)]
    );
    om.insert_after(&"c", "d").unwrap();
    assert_eq!(
        walk(&om),
        vec![("a", 0), ("c", 183251937962), ("d", 183251937963), ("b", 366503875924)]
    );
}
