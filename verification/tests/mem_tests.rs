use bptree::BPTreeMap;
use bptree::BPTreeSet;

#[test]
fn mod_it_works() {
    let mut tree = BPTreeMap::new();

    for n in [25u64, 4, 1, 16, 9, 20, 13, 15, 10, 11, 12] {
        println!("Insert {n}:");
        tree.insert(n, ());
    }

    for n in tree.iter() {
        println!("{n:?}");
    }

    for n in [13u64, 15, 1] {
        println!("Delete {n}:");
        tree.remove_entry(n);
    }

    for n in tree.iter() {
        println!("{n:?}");
    }

    for n in [25u64, 4, 16, 9, 20, 10, 11, 12] {
        println!("Delete {n}:");
        tree.remove_entry(n);
    }
    assert!(tree.is_empty());
}

#[test]
fn empty_lookup() {
    let mut tree: BPTreeMap<u64> = BPTreeMap::new();
    assert_eq!(tree.len(), 0);
    assert!(tree.get(7).is_none());
    assert!(tree.remove(7).is_none());
}

#[test]
fn insertion_sequence_with_splits() {
    let mut tree = BPTreeMap::new();
    for n in [25u64, 4, 1, 16, 9, 20, 13, 15, 10, 11, 12] {
        assert!(tree.insert(n, n).is_none());
        assert_eq!(tree.get(n), Some(&n));
    }
    assert_eq!(tree.len(), 11);
    let keys: Vec<u64> = tree.keys();
    assert_eq!(keys, vec![1, 4, 9, 10, 11, 12, 13, 15, 16, 20, 25]);
    let entries = tree.iter();
    for (i, (k, v)) in entries.iter().enumerate() {
        assert_eq!(*k, keys[i]);
        assert_eq!(*v, keys[i]);
    }
}

#[test]
fn borrow_from_sibling_on_delete() {
    let mut tree = BPTreeMap::new();
    for n in [25u64, 4, 1, 16, 9, 20, 13, 15, 10, 11, 12] {
        tree.insert(n, n);
    }
    for n in [13u64, 15, 1] {
        assert_eq!(tree.remove_entry(n), Some((n, n)));
        assert!(tree.get(n).is_none());
    }
    let keys: Vec<u64> = tree.keys();
    assert_eq!(keys, vec![4, 9, 10, 11, 12, 16, 20, 25]);
}

#[test]
fn cascading_merges_and_root_shrink() {
    let mut tree = BPTreeMap::new();
    for n in [25u64, 4, 1, 16, 9, 20, 13, 15, 10, 11, 12] {
        tree.insert(n, n);
    }
    for n in [13u64, 15, 1] {
        tree.remove(n);
    }
    for n in [25u64, 4, 16, 9, 20, 10, 11] {
        assert_eq!(tree.remove(n), Some(n));
    }
    assert_eq!(tree.len(), 1);
    assert_eq!(tree.get(12), Some(&12));
    assert_eq!(tree.remove(12), Some(12));
    assert_eq!(tree.len(), 0);
    assert!(tree.is_empty());
    assert!(tree.get(12).is_none());
}

#[test]
fn insert_replaces_and_is_idempotent() {
    let mut tree = BPTreeMap::new();
    assert_eq!(tree.insert(5, 50u64), None);
    assert_eq!(tree.insert(5, 51), Some(50));
    assert_eq!(tree.insert(5, 51), Some(51));
    assert_eq!(tree.len(), 1);
    assert_eq!(tree.remove(5), Some(51));
    assert_eq!(tree.remove(5), None);
    assert_eq!(tree.len(), 0);
}

#[test]
fn larger_order_round_trip() {
    let mut tree = BPTreeMap::with_order(5);
    for n in 0u64..200 {
        let key = (n * 37) % 199;
        tree.insert(key, key + 1);
    }
    assert_eq!(tree.len(), 199);
    let keys = tree.keys();
    for (i, k) in keys.iter().enumerate() {
        assert_eq!(*k, i as u64);
    }
    let values = tree.values();
    for (i, v) in values.iter().enumerate() {
        assert_eq!(*v, i as u64 + 1);
    }
    for n in 0u64..199 {
        assert!(tree.contains_key(n));
    }
    for n in 0u64..199 {
        assert_eq!(tree.remove(n), Some(n + 1));
    }
    assert!(tree.is_empty());
}

#[test]
fn get_key_value_reports_pair() {
    let mut tree = BPTreeMap::new();
    tree.insert(3, 33u64);
    match tree.get_key_value(3) {
        Some((k, v)) => {
            assert_eq!(k, 3);
            assert_eq!(*v, 33);
        },
        None => panic!("present key not found"),
    }
    assert!(tree.get_key_value(4).is_none());
}

#[test]
fn set_behaves_like_a_set() {
    let mut set = BPTreeSet::new();
    assert!(set.is_empty());
    assert!(set.insert(9));
    assert!(set.insert(5));
    assert!(!set.insert(9));
    assert_eq!(set.len(), 2);
    assert!(set.contains(5));
    assert_eq!(set.get(5), Some(5));
    assert_eq!(set.get(6), None);
    assert_eq!(set.iter(), vec![5, 9]);
    assert!(set.remove(5));
    assert!(!set.remove(5));
    assert_eq!(set.len(), 1);
}
