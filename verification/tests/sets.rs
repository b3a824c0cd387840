use yrs::apply::merge_missing;
use yrs::block::ID;
use yrs::block_store::StateVector;
use yrs::id_set::{insert_range, IdSet};

#[test]
fn ranges_that_overlap_or_adjoin_are_merged() {
    let mut ranges = vec![2..4, 8..10, 20..30];
    insert_range(&mut ranges, 4, 8);
    assert_eq!(ranges, vec![2..10, 20..30]);
    insert_range(&mut ranges, 12, 14);
    assert_eq!(ranges, vec![2..10, 12..14, 20..30]);
    insert_range(&mut ranges, 13, 25);
    assert_eq!(ranges, vec![2..10, 12..30]);
    insert_range(&mut ranges, 0, 1);
    assert_eq!(ranges, vec![0..1, 2..10, 12..30]);
    insert_range(&mut ranges, 40, 41);
    assert_eq!(ranges, vec![0..1, 2..10, 12..30, 40..41]);
    insert_range(&mut ranges, 0, 100);
    assert_eq!(ranges, vec![0..100]);
    insert_range(&mut ranges, 5, 6);
    assert_eq!(ranges, vec![0..100]);
}

#[test]
fn id_set_holds_what_was_inserted() {
    let mut set = IdSet::new();
    assert!(set.is_empty());
    set.insert(ID::new(1, 0), 0);
    assert!(set.is_empty());
    set.insert(ID::new(1, 5), 3);
    set.insert(ID::new(2, 0), 1);
    assert!(!set.is_empty());
    assert!(set.contains(&ID::new(1, 5)));
    assert!(set.contains(&ID::new(1, 7)));
    assert!(!set.contains(&ID::new(1, 8)));
    assert!(!set.contains(&ID::new(1, 4)));
    assert!(set.contains(&ID::new(2, 0)));
    assert!(!set.contains(&ID::new(3, 0)));
}

#[test]
fn id_set_merge_is_the_union() {
    let mut a = IdSet::new();
    a.insert(ID::new(1, 0), 4);
    a.insert(ID::new(2, 10), 2);
    let mut b = IdSet::new();
    b.insert(ID::new(1, 4), 4);
    b.insert(ID::new(3, 1), 1);
    let mut ab = a.clone();
    ab.merge(b.clone());
    assert_eq!(ab.clients.len(), 3);
    assert_eq!(ab.clients[0].ranges, vec![0..8]);
    assert_eq!(ab.clients[1].ranges, vec![10..12]);
    assert_eq!(ab.clients[2].ranges, vec![1..2]);
    let mut ba = b;
    ba.merge(a);
    for client in 1..4u64 {
        for clock in 0..16u32 {
            let id = ID::new(client, clock);
            assert_eq!(ab.contains(&id), ba.contains(&id));
        }
    }
}

#[test]
fn state_vector_keeps_the_lower_or_the_higher_clock() {
    let mut sv = StateVector::new();
    assert_eq!(sv.get(&1), 0);
    sv.set_min(1, 8);
    assert_eq!(sv.get(&1), 8);
    sv.set_min(1, 5);
    assert_eq!(sv.get(&1), 5);
    sv.set_min(1, 7);
    assert_eq!(sv.get(&1), 5);
    sv.set_max(1, 3);
    assert_eq!(sv.get(&1), 5);
    sv.set_max(1, 9);
    assert_eq!(sv.get(&1), 9);
    sv.set_max(2, 4);
    assert_eq!(sv.get(&2), 4);
    assert!(sv.contains(&ID::new(1, 8)));
    assert!(!sv.contains(&ID::new(1, 9)));
    assert!(!sv.contains(&ID::new(3, 0)));
}

#[test]
fn missing_clocks_merge_to_the_lower() {
    let mut a = StateVector::new();
    a.set(2, 5);
    a.set(7, 1);
    let mut b = StateVector::new();
    b.set(2, 8);
    b.set(3, 4);
    let mut ab = a.clone();
    merge_missing(&mut ab, &b);
    assert_eq!(ab.get(&2), 5);
    assert_eq!(ab.get(&7), 1);
    assert_eq!(ab.get(&3), 4);
    let mut ba = b.clone();
    merge_missing(&mut ba, &a);
    assert_eq!(ba.get(&2), 5);
    assert_eq!(ba.get(&7), 1);
    assert_eq!(ba.get(&3), 4);
}
