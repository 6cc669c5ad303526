use mpsc::key_filter::{Filter, HeldKeys, SimpleKey};
use mpsc::HyperKey;

/// A key that conflicts with every key of a greater number: not symmetric,
/// not reflexive.
#[derive(Clone)]
struct Below {
    n: u32,
}

impl HyperKey for Below {
    fn conflicts(&self, other: &Self) -> bool {
        self.n < other.n
    }

    fn collision_detect(&self, other: &Self) -> bool {
        self.n < other.n
    }
}

fn simple(keys: &[usize]) -> Vec<SimpleKey> {
    keys.iter().map(|k| SimpleKey { key: *k }).collect()
}

#[test]
fn new_set_holds_nothing() {
    let held: HeldKeys<SimpleKey> = HeldKeys::new();
    assert_eq!(held.len(), 0);
    assert!(!held.contains(&simple(&[1, 2, 3])));
}

#[test]
fn no_candidate_conflicts_with_anything() {
    let mut held: HeldKeys<SimpleKey> = HeldKeys::new();
    held.put(&simple(&[1, 2]));
    assert!(!held.contains(&vec![]));
}

#[test]
fn put_keeps_what_was_held_and_adds_each_key() {
    let mut held: HeldKeys<SimpleKey> = HeldKeys::new();
    held.put(&simple(&[4, 5]));
    held.put(&simple(&[5, 6, 7]));
    assert_eq!(held.len(), 5);
    assert_eq!(held.position(&SimpleKey { key: 4 }), Some(0));
    assert_eq!(held.position(&SimpleKey { key: 5 }), Some(1));
    assert_eq!(held.position(&SimpleKey { key: 6 }), Some(3));
    assert_eq!(held.position(&SimpleKey { key: 7 }), Some(4));
    assert_eq!(held.position(&SimpleKey { key: 8 }), None);
}

#[test]
fn contains_finds_a_conflict_of_any_candidate() {
    let mut held: HeldKeys<SimpleKey> = HeldKeys::new();
    held.put(&simple(&[10, 20, 30]));
    assert!(held.contains(&simple(&[1, 2, 30])));
    assert!(held.contains(&simple(&[10])));
    assert!(!held.contains(&simple(&[1, 2, 3])));
}

#[test]
fn contains_asks_the_candidate_about_the_held_key() {
    let mut held: HeldKeys<Below> = HeldKeys::new();
    held.put(&[Below { n: 5 }]);
    assert!(held.contains(&vec![Below { n: 3 }]));
    assert!(!held.contains(&vec![Below { n: 7 }]));
    assert!(!held.contains(&vec![Below { n: 5 }]));
}

#[test]
fn pop_asks_the_held_key_about_the_released_one() {
    let mut held: HeldKeys<Below> = HeldKeys::new();
    held.put(&[Below { n: 5 }]);
    assert_eq!(held.position(&Below { n: 3 }), None);
    assert_eq!(held.position(&Below { n: 7 }), Some(0));
    assert!(!held.try_pop(&[Below { n: 5 }]));
    assert_eq!(held.len(), 1);
    assert!(held.try_pop(&[Below { n: 7 }]));
    assert_eq!(held.len(), 0);
}

#[test]
fn pop_removes_one_entry_for_each_key() {
    let mut held: HeldKeys<SimpleKey> = HeldKeys::new();
    held.put(&simple(&[1, 2, 1, 3, 1]));
    held.pop(&simple(&[1]));
    assert_eq!(held.len(), 4);
    assert_eq!(held.position(&SimpleKey { key: 2 }), Some(0));
    assert_eq!(held.position(&SimpleKey { key: 1 }), Some(1));
    held.pop(&simple(&[1, 1]));
    assert_eq!(held.len(), 2);
    assert!(!held.contains(&simple(&[1])));
    assert_eq!(held.position(&SimpleKey { key: 2 }), Some(0));
    assert_eq!(held.position(&SimpleKey { key: 3 }), Some(1));
}

#[test]
fn pop_of_no_keys_changes_nothing() {
    let mut held: HeldKeys<SimpleKey> = HeldKeys::new();
    held.put(&simple(&[1, 2]));
    held.pop(&[]);
    assert_eq!(held.len(), 2);
    assert!(held.try_pop(&[]));
    assert_eq!(held.len(), 2);
}

#[test]
fn try_pop_leaves_the_set_as_it_was_when_a_key_is_missing() {
    let mut held: HeldKeys<SimpleKey> = HeldKeys::new();
    held.put(&simple(&[1, 2, 3, 2]));
    assert!(!held.try_pop(&simple(&[2, 3, 9])));
    assert_eq!(held.len(), 4);
    assert_eq!(held.position(&SimpleKey { key: 1 }), Some(0));
    assert_eq!(held.position(&SimpleKey { key: 2 }), Some(1));
    assert_eq!(held.position(&SimpleKey { key: 3 }), Some(2));
    // The second entry of key 2 is still in its place.
    held.pop(&simple(&[2]));
    assert_eq!(held.position(&SimpleKey { key: 2 }), Some(2));
}

#[test]
fn try_pop_needs_one_entry_for_each_occurrence_of_a_key() {
    let mut held: HeldKeys<SimpleKey> = HeldKeys::new();
    held.put(&simple(&[7]));
    assert!(!held.try_pop(&simple(&[7, 7])));
    assert_eq!(held.len(), 1);
    assert!(held.try_pop(&simple(&[7])));
    assert_eq!(held.len(), 0);
}

#[test]
fn try_pop_gives_back_in_the_order_of_the_keys() {
    let mut held: HeldKeys<SimpleKey> = HeldKeys::new();
    held.put(&simple(&[1, 2, 3]));
    assert!(held.try_pop(&simple(&[3, 1])));
    assert_eq!(held.len(), 1);
    assert_eq!(held.position(&SimpleKey { key: 2 }), Some(0));
}

#[test]
fn filter_pop_refuses_keys_that_were_never_registered() {
    let filter = Filter::default();
    filter.put(&simple(&[1, 2]));
    assert!(!filter.pop(&simple(&[3])));
    assert!(filter.contains(&simple(&[1])));
    assert!(filter.contains(&simple(&[2])));
    assert!(filter.pop(&simple(&[2, 1])));
    assert!(!filter.contains(&simple(&[1, 2])));
}

#[test]
fn clones_of_a_filter_reach_the_same_set() {
    let filter = Filter::default();
    let other = filter.clone();
    filter.put(&simple(&[5]));
    assert!(other.contains(&simple(&[5])));
    assert!(other.pop(&simple(&[5])));
    assert!(!filter.contains(&simple(&[5])));
}

#[test]
fn multithreads_test() {
    let filter = Filter::default();

    for i in 1..=10 {
        let filter = filter.clone();
        filter.put(&vec![SimpleKey { key: i as usize }])
    }

    for i in 1..=10 {
        assert!(filter.contains(&vec![SimpleKey { key: i as usize }]));
    }
}
