use loser::counts::TermCounts;

#[test]
fn increment_counts_from_zero() {
    let mut table = TermCounts::new();
    assert_eq!(table.len(), 0);
    assert_eq!(table.get("a"), None);
    table.increment("a".to_string());
    table.increment("b".to_string());
    table.increment("a".to_string());
    assert_eq!(table.get("a"), Some(2));
    assert_eq!(table.get("b"), Some(1));
    assert_eq!(table.get("c"), None);
    assert!(table.contains("a"));
    assert!(!table.contains("c"));
    assert_eq!(table.len(), 2);
    assert_eq!(table.term_at(0), "a");
    assert_eq!(table.term_at(1), "b");
    assert_eq!(table.count_at(0), 2);
    assert_eq!(table.entries(), vec![("a".to_string(), 2), ("b".to_string(), 1)]);
}

#[test]
fn decrement_stops_at_zero_and_keeps_the_entry() {
    let mut table = TermCounts::new();
    table.increment("a".to_string());
    table.decrement("a");
    assert_eq!(table.get("a"), Some(0));
    table.decrement("a");
    assert_eq!(table.get("a"), Some(0));
    table.decrement("b");
    assert_eq!(table.get("b"), None);
    assert_eq!(table.entries(), vec![("a".to_string(), 0)]);
}

#[test]
fn from_pairs_refuses_a_term_listed_twice() {
    let pairs = vec![("a".to_string(), 2), ("b".to_string(), 0), ("c".to_string(), 7)];
    let table = TermCounts::from_pairs(&pairs).unwrap();
    assert_eq!(table.entries(), pairs);
    let twice = vec![("a".to_string(), 2), ("b".to_string(), 1), ("a".to_string(), 2)];
    assert!(TermCounts::from_pairs(&twice).is_none());
    assert_eq!(TermCounts::from_pairs(&vec![]).unwrap().len(), 0);
}

#[test]
fn insert_new_adds_an_entry_at_the_end() {
    let mut table = TermCounts::new();
    table.insert_new("x".to_string(), 5);
    table.insert_new("y".to_string(), 0);
    assert_eq!(table.entries(), vec![("x".to_string(), 5), ("y".to_string(), 0)]);
}

#[test]
fn sum_adds_all_counts() {
    let table = TermCounts::from_pairs(&vec![("a".to_string(), 2), ("b".to_string(), 40)]).unwrap();
    assert_eq!(table.sum(), Some(42));
    assert_eq!(TermCounts::new().sum(), Some(0));
    let huge =
        TermCounts::from_pairs(&vec![("a".to_string(), usize::MAX), ("b".to_string(), 1)]).unwrap();
    assert_eq!(huge.sum(), None);
    let full = TermCounts::from_pairs(&vec![("a".to_string(), usize::MAX)]).unwrap();
    assert_eq!(full.sum(), Some(usize::MAX));
}

#[test]
fn same_counts_takes_a_missing_entry_for_zero() {
    let a = TermCounts::from_pairs(&vec![("a".to_string(), 2), ("b".to_string(), 0)]).unwrap();
    let b = TermCounts::from_pairs(&vec![("a".to_string(), 2)]).unwrap();
    let c = TermCounts::from_pairs(&vec![("a".to_string(), 3)]).unwrap();
    let d = TermCounts::from_pairs(&vec![("a".to_string(), 2), ("b".to_string(), 1)]).unwrap();
    assert!(a.same_counts(&b));
    assert!(b.same_counts(&a));
    assert!(!a.same_counts(&c));
    assert!(!a.same_counts(&d));
    assert!(!b.same_counts(&d));
    assert!(!d.same_counts(&b));
}
