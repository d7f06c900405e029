use mem_btree::{BTree, BatchWrite};
use rand::rngs::StdRng;
use rand::{Rng, SeedableRng};
use std::collections::BTreeMap;

fn random_pairs(n: usize) -> Vec<(u64, u64)> {
    let mut rng = StdRng::seed_from_u64(42);
    let mut pairs = Vec::new();
    for _ in 0..n {
        let key = rng.gen::<u64>();
        let value = rng.gen::<u64>();
        pairs.push((key, value));
    }
    pairs
}

#[test]
fn test_insert_and_compare() {
    let mut btree = BTree::new(32);
    let mut btree_map = BTreeMap::new();
    let pairs = random_pairs(10000);
    for (key, value) in &pairs {
        btree.put(*key, *value);
        btree_map.insert(*key, *value);
    }
    for (key, _value) in &pairs {
        assert_eq!(btree.get(key), btree_map.get(key));
    }
}

#[test]
fn test_remove_and_compare() {
    let mut btree = BTree::new(32);
    let mut btree_map = BTreeMap::new();
    let pairs = random_pairs(10000);
    for (key, value) in &pairs {
        btree.put(*key, *value);
        btree_map.insert(*key, *value);
    }
    for i in 0..5000 {
        let (key, _) = pairs[i];
        btree.remove(&key);
        btree_map.remove(&key);
    }
    for (key, _value) in &pairs {
        assert_eq!(btree.get(key), btree_map.get(key));
    }
}

#[test]
fn test_split_index() {
    let mut btree = BTree::new(32);
    let mut btree_map = BTreeMap::new();
    let pairs = random_pairs(1000);
    for (key, value) in &pairs {
        btree.put(*key, *value);
        btree_map.insert(*key, *value);
    }
    let temp = btree.clone();
    let temp_map = btree_map.clone();
    for i in 0..pairs.len() {
        let mut btree = temp.clone();
        let mut btree_map = temp_map.clone();
        let split_index = i as u64;
        let split_btree = btree.split_off(&split_index);
        let split_btree_map = btree_map.split_off(&split_index);
        for (key, _value) in &pairs {
            if *key < split_index {
                assert_eq!(btree.get(key), btree_map.get(key));
            } else {
                assert_eq!(split_btree.get(key), split_btree_map.get(key));
            }
        }
        for (key, _value) in &pairs {
            if *key >= split_index {
                assert_eq!(btree.get(key), None);
                assert_eq!(btree_map.get(key), None);
            }
        }
    }
}

#[test]
fn test_iter() {
    let mut btree = BTree::new(32);
    let mut btree_map = BTreeMap::new();
    let pairs = random_pairs(10000);
    for (key, value) in &pairs {
        btree.put(*key, *value);
        btree_map.insert(*key, *value);
    }
    let mut btree_iter = btree.iter();
    let mut btree_map_iter = btree_map.iter();
    loop {
        match (btree_iter.next(), btree_map_iter.next()) {
            (Some(item), Some((btree_map_key, btree_map_value))) => {
                assert_eq!(&item.0, btree_map_key);
                assert_eq!(&item.1, btree_map_value);
            }
            (None, None) => break,
            _ => panic!("BTree and BTreeMap have different lengths"),
        }
    }
}

#[test]
fn test_iter_prev() {
    let mut btree = BTree::new(32);
    let mut btree_map = BTreeMap::new();
    let pairs = random_pairs(10000);
    for (key, value) in &pairs {
        btree.put(*key, *value);
        btree_map.insert(*key, *value);
    }
    let mut btree_iter = btree.iter();
    let mut btree_map_iter = btree_map.iter().rev();
    loop {
        match (btree_iter.prev(), btree_map_iter.next()) {
            (Some(item), Some((btree_map_key, btree_map_value))) => {
                assert_eq!(&item.0, btree_map_key);
                assert_eq!(&item.1, btree_map_value);
            }
            (None, None) => break,
            _ => panic!("BTree and BTreeMap have different lengths"),
        }
    }
}

#[test]
fn test_seek() {
    let mut btree = BTree::new(32);
    let mut btree_map = BTreeMap::new();
    let pairs = random_pairs(10000);
    for (key, value) in &pairs {
        btree.put(*key, *value);
        btree_map.insert(*key, *value);
    }
    for i in 0..10000 {
        let key = i as u64;
        let mut btree_iter = btree.iter();
        btree_iter.seek(&key);
        let btree_map_iter = btree_map.range(key..).next();
        match (btree_iter.next(), btree_map_iter) {
            (Some(item), Some((btree_map_key, btree_map_value))) => {
                assert_eq!(&item.0, btree_map_key);
                assert_eq!(&item.1, btree_map_value);
            }
            (None, None) => {}
            _ => panic!("BTree and BTreeMap have different lengths"),
        }
    }
}

#[test]
fn test_seek_prev() {
    let mut btree = BTree::new(32);
    let mut btree_map = BTreeMap::new();
    let pairs = random_pairs(10000);
    for (key, value) in &pairs {
        btree.put(*key, *value);
        btree_map.insert(*key, *value);
    }
    for i in 0..10000 {
        let key = i as u64;
        let mut btree_iter = btree.iter();
        btree_iter.seek_prev(&key);
        let btree_map_iter = btree_map.range(..=key).next_back();
        match (btree_iter.prev(), btree_map_iter) {
            (Some(item), Some((btree_map_key, btree_map_value))) => {
                assert_eq!(&item.0, btree_map_key);
                assert_eq!(&item.1, btree_map_value);
            }
            (None, None) => {}
            _ => panic!("BTree and BTreeMap have different lengths"),
        }
    }
}

#[test]
fn test_batch_write() {
    let mut btree = BTree::new(32);
    let mut btree_map = BTreeMap::new();
    let pairs = random_pairs(10240);
    pairs.chunks(256).for_each(|c| {
        let mut bw = BatchWrite::default();
        for v in c {
            bw.put(v.0, v.1);
        }
        btree.write(bw);
    });
    for (key, value) in &pairs {
        btree_map.insert(*key, *value);
    }
    for (key, _value) in &pairs {
        assert_eq!(btree.get(key), btree_map.get(key));
    }
}

#[test]
fn test_max() {
    let mut btree = BTree::new(4);
    btree.put(1, "a");
    btree.put(2, "b");
    btree.put(3, "c");
    btree.put(4, "d");
    btree.put(5, "e");
    assert_eq!(btree.max(), Some(&std::sync::Arc::new((5, "e", None))));

    assert_eq!(btree.min(), Some(&std::sync::Arc::new((1, "a", None))));
}
