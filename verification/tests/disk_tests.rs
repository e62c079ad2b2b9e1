use std::collections::HashMap;

use bptree::disk::{BPTree, Error, Flush};
use bptree::image::{encode_image, encode_root_meta, encode_u64_meta, NodeImage};

/// A directory stand-in: the three metadata files and one entry per node
/// file, keyed by identity.
struct Store {
    root_meta: Option<Vec<u8>>,
    order_meta: Option<Vec<u8>>,
    len_meta: Option<Vec<u8>>,
    nodes: HashMap<u128, Vec<u8>>,
}

impl Store {
    fn new() -> Self {
        Store { root_meta: None, order_meta: None, len_meta: None, nodes: HashMap::new() }
    }

    fn apply(&mut self, flush: Flush) {
        if let Some(b) = flush.root_meta {
            self.root_meta = Some(b);
        }
        if let Some(b) = flush.order_meta {
            self.order_meta = Some(b);
        }
        if let Some(b) = flush.len_meta {
            self.len_meta = Some(b);
        }
        for (id, bytes) in flush.nodes {
            self.nodes.insert(id, bytes);
        }
        for id in flush.removals {
            self.nodes.remove(&id);
        }
    }

    fn reload(&self) -> Result<BPTree, Error> {
        let mut loader = BPTree::load(
            self.root_meta.as_ref(),
            self.order_meta.as_ref(),
            self.len_meta.as_ref(),
        )?;
        while let Some(id) = loader.next_need() {
            let bytes = self.nodes.get(&id).ok_or(Error::BadTree)?;
            loader.install(id, bytes)?;
        }
        loader.finish()
    }
}

#[test]
fn it_works() -> Result<(), Error> {
    let mut tree = BPTree::new();

    for n in [25u64, 4, 1, 16, 9, 20, 13, 15, 10, 11, 12] {
        println!("Insert {n}:");
        tree.insert(n, n)?;
        assert_eq!(tree.get(n)?, Some(n));
    }

    for n in [13u64, 15, 1] {
        println!("Delete {n}:");
        assert_eq!(tree.remove_entry(n)?, Some((n, n)));
        assert_eq!(tree.get(n)?, None);
    }

    let mut store = Store::new();
    store.apply(tree.persist());

    let x = tree.get_mut(4)?;
    let mut guard = x.unwrap();
    guard.value += 1;
    tree.release(guard).unwrap();
    assert_eq!(tree.get(4)?, Some(5));

    store.apply(tree.persist());

    for n in [25u64, 4, 16, 9, 20, 10, 11, 12] {
        println!("Delete {n}:");
        tree.remove_entry(n)?;
    }

    store.apply(tree.persist());
    assert!(tree.is_empty());

    Ok(())
}

#[test]
fn reload() -> Result<(), Error> {
    let mut tree: BPTree = BPTree::new();

    for n in 0u64..10 {
        tree.insert(n, n)?;
    }

    let mut store = Store::new();
    store.apply(tree.persist());

    let tree = store.reload()?;

    for n in 0u64..10 {
        assert_eq!(tree.get(n)?, Some(n));
    }
    assert_eq!(tree.len(), 10);

    Ok(())
}

#[test]
fn guard_release_flushes_one_leaf() -> Result<(), Error> {
    let mut tree = BPTree::new();
    for n in [25u64, 4, 1, 16, 9, 20, 13, 15] {
        tree.insert(n, n)?;
    }
    let mut store = Store::new();
    store.apply(tree.persist());

    // A clean tree has nothing further to write.
    let quiet = tree.persist();
    assert!(quiet.root_meta.is_none());
    assert!(quiet.len_meta.is_none());
    assert_eq!(quiet.nodes.len(), 0);
    assert_eq!(quiet.removals.len(), 0);

    // Mutating one value through the guard dirties exactly its leaf:
    // flushing along that key writes one node file and no metadata.
    let guard = tree.get_mut(4)?;
    let mut guard = guard.unwrap();
    guard.value += 1;
    tree.release(guard).unwrap();
    let flush = tree.persist_key(4)?;
    assert!(flush.root_meta.is_none());
    assert!(flush.order_meta.is_none());
    assert!(flush.len_meta.is_none());
    assert_eq!(flush.nodes.len(), 1);
    store.apply(flush);

    let reloaded = store.reload()?;
    assert_eq!(reloaded.get(4)?, Some(5));
    Ok(())
}

#[test]
fn persist_key_refuses_unknown_keys() -> Result<(), Error> {
    let mut tree = BPTree::new();
    tree.insert(1, 10)?;
    assert_eq!(tree.persist_key(99).err(), Some(Error::UnknownKey));
    assert_eq!(tree.release(bptree::disk::ValueMutationGuard { key: 99, value: 0 }),
        Err(Error::UnknownKey));
    Ok(())
}

#[test]
fn load_refuses_missing_or_bad_metadata() {
    assert_eq!(BPTree::load(None, None, None).err(), Some(Error::BadTree));
    let junk = vec![1u8, 2, 3];
    assert_eq!(
        BPTree::load(Some(&junk), Some(&junk), Some(&junk)).err(),
        Some(Error::Codec)
    );
}

#[test]
fn install_refuses_corrupt_node_bytes() -> Result<(), Error> {
    let mut tree = BPTree::new();
    for n in 0u64..5 {
        tree.insert(n, n)?;
    }
    let mut store = Store::new();
    store.apply(tree.persist());

    let mut loader = BPTree::load(
        store.root_meta.as_ref(),
        store.order_meta.as_ref(),
        store.len_meta.as_ref(),
    )?;
    let id = loader.next_need().unwrap();
    let junk = vec![9u8; 4];
    assert_eq!(loader.install(id, &junk), Err(Error::Codec));
    Ok(())
}

#[test]
fn removal_reclaims_node_files() -> Result<(), Error> {
    let mut tree = BPTree::new();
    for n in 0u64..32 {
        tree.insert(n, n)?;
    }
    let mut store = Store::new();
    store.apply(tree.persist());
    let populated = store.nodes.len();
    assert!(populated > 1);

    for n in 0u64..32 {
        tree.remove(n)?;
    }
    store.apply(tree.persist());

    // Every node file was reclaimed once its node dissolved.
    assert_eq!(store.nodes.len(), 0);
    assert_eq!(tree.len(), 0);

    // And the emptied store still loads back to an empty tree.
    let reloaded = store.reload()?;
    assert!(reloaded.is_empty());
    Ok(())
}

#[test]
fn persist_round_trip_after_updates() -> Result<(), Error> {
    let mut tree = BPTree::with_order(4);
    for n in 0u64..50 {
        tree.insert(n, n * 2)?;
    }
    for n in (0u64..50).step_by(3) {
        tree.remove(n)?;
    }
    let mut store = Store::new();
    store.apply(tree.persist());
    let reloaded = store.reload()?;
    assert_eq!(reloaded.len(), tree.len());
    for n in 0u64..50 {
        assert_eq!(reloaded.get(n)?, tree.get(n)?);
        assert_eq!(reloaded.contains_key(n)?, n % 3 != 0);
    }
    Ok(())
}

#[test]
fn load_refuses_a_broken_leaf_chain() {
    // A single-leaf tree whose leaf claims a successor: the chain must end
    // at the last leaf, so the loader refuses it.
    let leaf_id: u128 = 7;
    let image = NodeImage::Leaf { id: leaf_id, entries: vec![(1u64, 10u64)], next: Some(99) };
    let mut loader = BPTree::load(
        Some(&encode_root_meta(&Some(leaf_id))),
        Some(&encode_u64_meta(3)),
        Some(&encode_u64_meta(1)),
    )
    .unwrap();
    loader.install(leaf_id, &encode_image(&image)).unwrap();
    assert_eq!(loader.finish().err(), Some(Error::BadTree));

    // The same tree with the chain properly ended loads.
    let good = NodeImage::Leaf { id: leaf_id, entries: vec![(1u64, 10u64)], next: None };
    let mut loader = BPTree::load(
        Some(&encode_root_meta(&Some(leaf_id))),
        Some(&encode_u64_meta(3)),
        Some(&encode_u64_meta(1)),
    )
    .unwrap();
    loader.install(leaf_id, &encode_image(&good)).unwrap();
    let tree = loader.finish().unwrap();
    assert_eq!(tree.get(1), Ok(Some(10)));
}
