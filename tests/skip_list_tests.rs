use skip_list::{
    deterministic_level, level_from_flips, probabilistic_level, Bound, KeyValuePair, PromotionType, SkipList,
    SkipListError, SkipListNode, MAX_LEVEL,
};
use std::cmp::Ordering;

fn pair(key: u64, text: &str) -> KeyValuePair<String> {
    KeyValuePair(key, text.to_string())
}

fn letter(c: char) -> u64 {
    c as u64
}

/// Keys met by walking level 0 from the head to the tail.
fn level0_keys(list: &SkipList<KeyValuePair<String>>) -> Vec<u64> {
    let nodes = list.get_nodes_list();
    let mut keys = Vec::new();
    let mut curr = 0usize;
    loop {
        let next = nodes[curr].get_forwards()[0].expect("level 0 is linked");
        if next == 1 {
            break;
        }
        keys.push(nodes[next].get_data().0);
        curr = next;
    }
    keys
}

#[test]
fn three_letters_deterministic() {
    let mut list = SkipList::new(PromotionType::Deterministic);
    assert!(list.insert(pair(letter('a'), "first")).is_ok());
    assert!(list.insert(pair(letter('b'), "second")).is_ok());
    assert!(list.insert(pair(letter('c'), "third")).is_ok());
    assert_eq!(list.length(), 3);
    assert_eq!(list.search(letter('b')).map(|p| p.1.clone()), Some("second".to_string()));
    let removed = list.delete(letter('b')).expect("b is stored");
    assert_eq!(removed.0, letter('b'));
    assert_eq!(removed.1, "second");
    assert_eq!(list.length(), 2);
    assert!(list.search(letter('b')).is_none());
    assert_eq!(list.search(letter('a')).map(|p| p.1.clone()), Some("first".to_string()));
    assert_eq!(list.search(letter('c')).map(|p| p.1.clone()), Some("third".to_string()));
}

#[test]
fn twenty_inserted_then_deleted_in_reverse() {
    let mut list: SkipList<u64> = SkipList::new(PromotionType::Deterministic);
    for k in 0..20u64 {
        assert!(list.insert(k).is_ok());
    }
    assert_eq!(list.length(), 20);
    for k in (0..20u64).rev() {
        let before = list.length();
        assert_eq!(list.delete(k), Some(k));
        assert_eq!(list.length(), before - 1);
    }
    assert_eq!(list.length(), 0);
    for k in 0..20u64 {
        assert!(list.search(k).is_none());
    }
}

#[test]
fn twenty_inserted_then_deleted_probabilistic() {
    let mut list: SkipList<u64> = SkipList::new(PromotionType::Probabilistic);
    for k in 0..20u64 {
        assert!(list.insert(k * 3).is_ok());
    }
    for k in (0..20u64).rev() {
        assert_eq!(list.delete(k * 3), Some(k * 3));
        assert_eq!(list.length(), k as usize);
    }
}

#[test]
fn count_is_inserts_minus_deletes() {
    let mut list: SkipList<u64> = SkipList::new(PromotionType::Probabilistic);
    let mut inserted = 0usize;
    let mut deleted = 0usize;
    for k in [5u64, 9, 1, 5, 7, 9, 2] {
        if list.insert(k).is_ok() {
            inserted += 1;
        }
    }
    for k in [9u64, 3, 1, 9, 42] {
        if list.delete(k).is_some() {
            deleted += 1;
        }
    }
    assert_eq!(inserted, 5);
    assert_eq!(deleted, 2);
    assert_eq!(list.length(), inserted - deleted);
}

#[test]
fn search_finds_until_deleted() {
    let mut list = SkipList::new(PromotionType::Deterministic);
    list.insert(pair(10, "ten")).unwrap();
    list.insert(pair(20, "twenty")).unwrap();
    list.insert(pair(30, "thirty")).unwrap();
    assert_eq!(list.delete(20).map(|p| p.1), Some("twenty".to_string()));
    list.insert(pair(25, "twenty-five")).unwrap();
    assert_eq!(list.search(10).map(|p| p.1.clone()), Some("ten".to_string()));
    assert_eq!(list.delete(10).map(|p| p.1), Some("ten".to_string()));
    assert!(list.search(10).is_none());
}

#[test]
fn duplicate_key_is_refused() {
    let mut list = SkipList::new(PromotionType::Deterministic);
    list.insert(pair(4, "kept")).unwrap();
    let slots = list.get_nodes_list().len();
    assert_eq!(list.insert(pair(4, "replacement")), Err(SkipListError::DuplicateKey));
    assert_eq!(list.get_nodes_list().len(), slots);
    assert!(list.get_free_list().is_empty());
    assert_eq!(list.length(), 1);
    assert_eq!(list.search(4).map(|p| p.1.clone()), Some("kept".to_string()));
}

#[test]
fn deleting_absent_key_changes_nothing() {
    let mut list: SkipList<u64> = SkipList::new(PromotionType::Deterministic);
    assert_eq!(list.delete(3), None);
    list.insert(1).unwrap();
    list.insert(5).unwrap();
    assert_eq!(list.delete(3), None);
    assert_eq!(list.length(), 2);
    assert_eq!(list.search(1), Some(&1));
    assert_eq!(list.search(5), Some(&5));
}

#[test]
fn empty_list_finds_nothing() {
    let list: SkipList<u64> = SkipList::new(PromotionType::Deterministic);
    assert_eq!(list.length(), 0);
    assert!(list.search(0).is_none());
    assert!(list.search(u64::MAX).is_none());
    assert!(list.search_debug(7).is_none());
}

#[test]
fn extreme_keys_are_stored() {
    let mut list: SkipList<u64> = SkipList::new(PromotionType::Probabilistic);
    list.insert(u64::MAX).unwrap();
    list.insert(0).unwrap();
    assert_eq!(list.search(u64::MAX), Some(&u64::MAX));
    assert_eq!(list.search(0), Some(&0));
    assert_eq!(list.delete(u64::MAX), Some(u64::MAX));
    assert_eq!(list.search(0), Some(&0));
}

#[test]
fn level0_walk_is_increasing() {
    let mut list = SkipList::new(PromotionType::Probabilistic);
    for k in [50u64, 10, 40, 20, 30, 60, 5] {
        list.insert(pair(k, "x")).unwrap();
    }
    list.delete(40).unwrap();
    list.insert(pair(45, "y")).unwrap();
    assert_eq!(level0_keys(&list), vec![5, 10, 20, 30, 45, 50, 60]);
}

#[test]
fn freed_slot_is_reused() {
    let mut list: SkipList<u64> = SkipList::new(PromotionType::Deterministic);
    let first = list.insert(1).unwrap();
    let second = list.insert(2).unwrap();
    assert_eq!((first, second), (2, 3));
    assert_eq!(list.delete(1), Some(1));
    assert_eq!(list.get_free_list(), &vec![first]);
    assert_eq!(list.insert(3).unwrap(), first);
    assert!(list.get_free_list().is_empty());
    assert_eq!(list.insert(4).unwrap(), 4);
    assert_eq!(list.get_nodes_list().len(), 5);
}

#[test]
fn search_debug_returns_node() {
    let mut list: SkipList<u64> = SkipList::new(PromotionType::Deterministic);
    list.insert(8).unwrap();
    let node = list.search_debug(8).expect("8 is stored");
    assert_eq!(*node.get_data(), 8);
    assert!(node.get_level_len() >= 1);
}

#[test]
fn deterministic_levels_follow_trailing_zeros() {
    assert_eq!(deterministic_level(1), 0);
    assert_eq!(deterministic_level(2), 1);
    assert_eq!(deterministic_level(3), 0);
    assert_eq!(deterministic_level(8), 3);
    assert_eq!(deterministic_level(12), 2);
    assert_eq!(deterministic_level(1 << 18), 18);
    assert_eq!(deterministic_level(1 << 25), MAX_LEVEL - 1);
    assert_eq!(deterministic_level(0), MAX_LEVEL - 1);
    for k in 1..200usize {
        assert_eq!(deterministic_level(k), deterministic_level(k));
        assert_eq!(deterministic_level(k), (k.trailing_zeros() as usize).min(MAX_LEVEL - 1));
    }
}

#[test]
fn deterministic_list_gives_node_heights() {
    let mut list: SkipList<u64> = SkipList::new(PromotionType::Deterministic);
    let mut slots = Vec::new();
    for k in 0..9u64 {
        slots.push(list.insert(k).unwrap());
    }
    let heights: Vec<usize> = slots.iter().map(|&s| list.get_nodes_list()[s].get_level_len()).collect();
    assert_eq!(heights, vec![1, 2, 1, 3, 1, 2, 1, 4, 1]);
}

#[test]
fn probabilistic_levels_are_roughly_geometric() {
    let trials = 20000;
    let mut counts = vec![0usize; MAX_LEVEL];
    for _ in 0..trials {
        let level = probabilistic_level();
        assert!(level < MAX_LEVEL);
        counts[level] += 1;
    }
    let share = |n: usize| n as f64 / trials as f64;
    assert!((share(counts[0]) - 0.5).abs() < 0.05);
    assert!((share(counts[1]) - 0.25).abs() < 0.05);
    assert!((share(counts[2]) - 0.125).abs() < 0.04);
}

#[test]
fn bound_order_and_value() {
    let neg: Bound<u64> = Bound::NegInf;
    let pos: Bound<u64> = Bound::PosInf;
    let val: Bound<u64> = Bound::Value(7);
    assert_eq!(neg.cmp_key(0), Ordering::Less);
    assert_eq!(pos.cmp_key(u64::MAX), Ordering::Greater);
    assert_eq!(val.cmp_key(7), Ordering::Equal);
    assert_eq!(val.cmp_key(8), Ordering::Less);
    assert_eq!(val.cmp_key(6), Ordering::Greater);
    assert_eq!(*val.value(), 7);
}

#[test]
fn node_constructors() {
    let node = SkipListNode::new(pair(3, "three"), 2);
    assert_eq!(node.get_level_len(), 3);
    assert_eq!(node.get_data().1, "three");
    assert_eq!(node.get_data().value(), "three");
    assert!(node.get_forwards().iter().all(|f| f.is_none()));
    let empty: SkipListNode<u64> = SkipListNode::default();
    assert_eq!(empty.get_level_len(), 0);
    let mut sentinel: SkipListNode<u64> = SkipListNode::new_sentinel(Bound::PosInf, 4);
    assert_eq!(sentinel.get_level_len(), 5);
    sentinel.get_mut_forwards()[0] = Some(9);
    assert_eq!(sentinel.get_forwards()[0], Some(9));
}

#[test]
fn level_counts_leading_heads() {
    let mut flips = vec![false; MAX_LEVEL - 1];
    assert_eq!(level_from_flips(&flips), 0);
    flips[0] = true;
    flips[1] = true;
    flips[3] = true;
    assert_eq!(level_from_flips(&flips), 2);
    let all_heads = vec![true; MAX_LEVEL - 1];
    assert_eq!(level_from_flips(&all_heads), MAX_LEVEL - 1);
}

#[test]
fn first_deterministic_insert_gets_level_zero() {
    let mut list: SkipList<u64> = SkipList::new(PromotionType::Deterministic);
    let slot = list.insert(42).unwrap();
    assert_eq!(list.get_nodes_list()[slot].get_level_len(), 1);
}

#[test]
fn deleted_slot_is_freed_and_unlinked() {
    let mut list: SkipList<u64> = SkipList::new(PromotionType::Deterministic);
    let a = list.insert(1).unwrap();
    list.insert(2).unwrap();
    list.insert(3).unwrap();
    let slots = list.get_nodes_list().len();
    assert_eq!(list.delete(1), Some(1));
    assert_eq!(list.get_free_list(), &vec![a]);
    assert_eq!(list.get_nodes_list().len(), slots);
    assert_eq!(list.get_nodes_list()[a].get_level_len(), 0);
    assert_eq!(list.delete(1), None);
    assert_eq!(list.get_free_list(), &vec![a]);
}
