use mem_btree::ttl::{deadline, expired};
use mem_btree::{Action, BTree, BTreeType, BatchWrite, Leaf, TTLBTree};
use std::sync::Arc;
use std::collections::BTreeMap;
use std::time::Duration;

fn keys_forward(tree: &BTree<u64>) -> Vec<u64> {
    tree.iter().collect_next().iter().map(|it| it.0).collect()
}

#[test]
fn sixteen_even_keys_with_fan_out_four() {
    let order = [14u64, 2, 30, 8, 0, 22, 18, 6, 26, 10, 4, 28, 12, 20, 16, 24];
    let mut tree = BTree::new(4);
    for k in order {
        tree.put(k, k);
    }
    assert_eq!(tree.len(), 16);
    assert_eq!(tree.min().map(|it| it.0), Some(0));
    assert_eq!(tree.max().map(|it| it.0), Some(30));
    assert_eq!(tree.get(&14), Some(&14));
    assert_eq!(tree.get(&15), None);
    let expected: Vec<u64> = (0..16).map(|i| i * 2).collect();
    assert_eq!(keys_forward(&tree), expected);
    let right = tree.split_off(&15);
    assert_eq!(tree.len(), 8);
    assert_eq!(right.len(), 8);
    assert_eq!(keys_forward(&tree), (0..8).map(|i| i * 2).collect::<Vec<u64>>());
    assert_eq!(keys_forward(&right), (8..16).map(|i| i * 2).collect::<Vec<u64>>());
}

#[test]
fn split_five_keys_at_three() {
    let mut tree = BTree::new(4);
    for k in 1..=5u64 {
        tree.put(k, k);
    }
    let right = tree.split_off(&3);
    assert_eq!(tree.len(), 2);
    assert_eq!(right.len(), 3);
    assert_eq!(tree.get(&3), None);
    assert_eq!(right.get(&3), Some(&3));
    assert_eq!(keys_forward(&tree), vec![1, 2]);
    assert_eq!(keys_forward(&right), vec![3, 4, 5]);
}

#[test]
fn split_below_all_and_above_all() {
    let mut tree = BTree::new(4);
    for k in 10..40u64 {
        tree.put(k, k);
    }
    let mut low = tree.clone();
    let all = low.split_off(&0);
    assert_eq!(low.len(), 0);
    assert_eq!(all.len(), 30);
    let mut high = tree.clone();
    let none = high.split_off(&1000);
    assert_eq!(high.len(), 30);
    assert!(none.is_empty());
    low.put(5, 5);
    assert_eq!(low.get(&5), Some(&5));
}

#[test]
fn put_replaces_and_returns_previous() {
    let mut tree = BTree::new(4);
    assert!(tree.put(7, 70).is_none());
    let old = tree.put(7, 71).unwrap();
    assert_eq!((old.0, old.1, old.2), (7, 70, None));
    assert_eq!(tree.get(&7), Some(&71));
    assert_eq!(tree.len(), 1);
}

#[test]
fn remove_round_trip_and_absent_key() {
    let mut tree = BTree::new(4);
    for k in 0..50u64 {
        tree.put(k, k + 100);
    }
    let removed = tree.remove(&20).unwrap();
    assert_eq!((removed.0, removed.1), (20, 120));
    assert_eq!(tree.get(&20), None);
    assert_eq!(tree.len(), 49);
    assert!(tree.remove(&20).is_none());
    assert!(tree.remove(&1000).is_none());
    assert_eq!(tree.len(), 49);
}

#[test]
fn remove_everything_then_put_again() {
    let mut tree = BTree::new(4);
    for k in 0..100u64 {
        tree.put(k, k);
    }
    for k in 0..100u64 {
        assert!(tree.remove(&k).is_some());
    }
    assert!(tree.is_empty());
    assert_eq!(tree.min(), None);
    assert_eq!(tree.max(), None);
    tree.put(3, 3);
    assert_eq!(tree.get(&3), Some(&3));
    assert_eq!(tree.len(), 1);
}

#[test]
fn clone_is_a_snapshot() {
    let mut tree = BTree::new(4);
    for k in 0..20u64 {
        tree.put(k, k);
    }
    let snapshot = tree.clone();
    for k in 0..10u64 {
        tree.remove(&k);
    }
    tree.put(100, 100);
    assert_eq!(snapshot.len(), 20);
    assert_eq!(snapshot.get(&3), Some(&3));
    assert_eq!(snapshot.get(&100), None);
    assert_eq!(keys_forward(&snapshot), (0..20).collect::<Vec<u64>>());
}

#[test]
fn cursor_is_a_snapshot() {
    let mut tree = BTree::new(4);
    for k in 0..20u64 {
        tree.put(k, k);
    }
    let mut cursor = tree.iter();
    tree.put(50, 50);
    tree.remove(&0);
    let seen: Vec<u64> = cursor.collect_next().iter().map(|it| it.0).collect();
    assert_eq!(seen, (0..20).collect::<Vec<u64>>());
}

#[test]
fn cursor_next_then_prev() {
    let mut tree = BTree::new(4);
    for k in 1..=9u64 {
        tree.put(k, k);
    }
    let mut c = tree.iter();
    assert_eq!(c.next().map(|it| it.0), Some(1));
    assert_eq!(c.next().map(|it| it.0), Some(2));
    assert_eq!(c.next().map(|it| it.0), Some(3));
    assert_eq!(c.prev().map(|it| it.0), Some(3));
    assert_eq!(c.prev().map(|it| it.0), Some(2));
    assert_eq!(c.next().map(|it| it.0), Some(2));
    assert_eq!(c.next().map(|it| it.0), Some(3));
    c.reset();
    assert_eq!(c.prev().map(|it| it.0), Some(9));
    c.seek(&5);
    let rest: Vec<u64> = c.collect_next().iter().map(|it| it.0).collect();
    assert_eq!(rest, vec![5, 6, 7, 8, 9]);
    assert!(c.next().is_none());
    assert!(c.prev().is_none());
    c.seek_prev(&5);
    let head: Vec<u64> = c.collect_prev().iter().map(|it| it.0).collect();
    assert_eq!(head, vec![5, 4, 3, 2, 1]);
}

#[test]
fn prev_after_next_at_leaf_boundaries() {
    let mut tree = BTree::new(4);
    for k in 0..40u64 {
        tree.put(k, k);
    }
    let mut c = tree.iter();
    assert_eq!(c.next().map(|it| it.0), Some(0));
    assert_eq!(c.prev().map(|it| it.0), Some(0));
    assert!(c.prev().is_none());
    let mut d = tree.iter();
    for k in 0..40u64 {
        assert_eq!(d.next().map(|it| it.0), Some(k));
        assert_eq!(d.prev().map(|it| it.0), Some(k));
        assert_eq!(d.next().map(|it| it.0), Some(k));
    }
    assert!(d.next().is_none());
    let mut e = tree.iter();
    e.seek(&20);
    assert_eq!(e.prev().map(|it| it.0), Some(19));
    let mut f = tree.iter();
    for k in (0..40u64).rev() {
        assert_eq!(f.prev().map(|it| it.0), Some(k));
        assert_eq!(f.next().map(|it| it.0), Some(k));
        assert_eq!(f.prev().map(|it| it.0), Some(k));
    }
}

#[test]
fn seek_between_and_beyond_keys() {
    let mut tree = BTree::new(4);
    for k in 0..30u64 {
        tree.put(k * 10, k);
    }
    let mut c = tree.iter();
    c.seek(&15);
    assert_eq!(c.next().map(|it| it.0), Some(20));
    c.seek(&1000);
    assert!(c.next().is_none());
    c.seek_prev(&15);
    assert_eq!(c.prev().map(|it| it.0), Some(10));
    c.seek_prev(&20);
    assert_eq!(c.prev().map(|it| it.0), Some(20));
    let mut empty: BTree<u64> = BTree::new(4);
    let mut e = empty.iter();
    e.seek(&1);
    assert!(e.next().is_none());
    empty.put(1, 1);
    assert!(e.prev().is_none());
}

#[test]
fn cursor_on_empty_tree() {
    let tree: BTree<u64> = BTree::new(4);
    let mut c = tree.iter();
    assert!(c.next().is_none());
    assert!(c.next().is_none());
    let mut d = tree.iter();
    assert!(d.prev().is_none());
}

#[test]
fn batch_puts_and_deletes() {
    let mut tree = BTree::new(4);
    for k in 0..40u64 {
        tree.put(k, k);
    }
    let mut bw = BatchWrite::new();
    bw.put(100, 1);
    bw.delete(5);
    bw.put(6, 60);
    bw.delete(6);
    bw.put(7, 70);
    bw.delete(1000);
    bw.put_with_expiry(8, 80, 123);
    tree.write(bw);
    let mut std_map: BTreeMap<u64, u64> = (0..40u64).map(|k| (k, k)).collect();
    std_map.insert(100, 1);
    std_map.remove(&5);
    std_map.remove(&6);
    std_map.insert(7, 70);
    std_map.insert(8, 80);
    let got: Vec<(u64, u64)> = tree.iter().collect_next().iter().map(|it| (it.0, it.1)).collect();
    let want: Vec<(u64, u64)> = std_map.into_iter().collect();
    assert_eq!(got, want);
    assert_eq!(tree.len(), 39);
}

#[test]
fn batch_into_empty_tree_and_deleting_all() {
    let mut tree = BTree::new(4);
    let mut bw = BatchWrite::new();
    for k in (0..500u64).rev() {
        bw.put(k, k * 2);
    }
    tree.write(bw);
    assert_eq!(tree.len(), 500);
    assert_eq!(keys_forward(&tree), (0..500).collect::<Vec<u64>>());
    assert_eq!(tree.get(&499), Some(&998));
    let mut bw = BatchWrite::new();
    for k in 0..500u64 {
        bw.delete(k);
    }
    tree.write(bw);
    assert!(tree.is_empty());
    tree.put(1, 1);
    assert_eq!(tree.len(), 1);
}

#[test]
fn batch_map_keeps_last_action() {
    let mut bw: BatchWrite<u64> = BatchWrite::default();
    bw.put(1, 10);
    bw.delete(1);
    bw.put(2, 20);
    bw.put(2, 21);
    let m = bw.into_map();
    assert!(matches!(m.get(&1), Some(Action::Delete)));
    assert!(matches!(m.get(&2), Some(Action::Put(21, None))));
}

#[test]
fn expiry_passes_with_fan_out_64() {
    let base: u64 = 1_000_000;
    let mut tree = BTree::new(64);
    for j in 1..=10u64 {
        for i in 1..=10000u64 {
            tree.put_expiring(i * 100000 + j, j * 10, Some(base + 2000 * j));
        }
    }
    assert_eq!(tree.len(), 100000);
    for j in 1..=10u64 {
        let now = base + 2000 * j + 1;
        tree = tree.expir_at(now);
        assert_eq!(tree.len() as u64, (10 - j) * 10000);
        for it in tree.iter().collect_next() {
            assert!(it.2.unwrap() >= now);
        }
    }
}

#[test]
fn expiry_keeps_items_at_the_instant() {
    let mut tree = BTree::new(4);
    tree.put_expiring(1, 1, Some(10));
    tree.put_expiring(2, 2, Some(11));
    tree.put(3, 3);
    let kept = tree.expir_at(10);
    assert_eq!(kept.len(), 3);
    let cut = tree.expir_at(11);
    assert_eq!(keys_forward(&cut), vec![2, 3]);
    let cut = tree.expir_at(u64::MAX);
    assert_eq!(keys_forward(&cut), vec![3]);
}

#[test]
fn put_ttl_sets_expiry_from_the_clock() {
    let mut tree = BTree::new(4);
    tree.put_ttl(1, 1, Duration::from_secs(3600));
    tree.put_expiring(2, 2, Some(1));
    let item = tree.min().unwrap().clone();
    let expiry = item.2.unwrap();
    let now = std::time::SystemTime::now()
        .duration_since(std::time::UNIX_EPOCH)
        .unwrap()
        .as_millis() as u64;
    assert!(expiry > now + 3_500_000 && expiry <= now + 3_600_000);
    let live = tree.expir();
    assert_eq!(keys_forward(&live), vec![1]);
}

#[test]
fn ttl_tree_reads_check_deadlines() {
    let mut t: TTLBTree<u64> = TTLBTree::new(4);
    t.put(1, 10);
    assert_eq!(t.get(&1), Some(&10));
    assert_eq!(t.get(&2), None);
    t.set_time_to_live(-1000);
    t.put(2, 20);
    assert_eq!(t.get(&2), None);
    assert_eq!(t.get_with_expir(&2), Some((&20, true)));
    assert_eq!(t.get_with_expir(&1), Some((&10, false)));
    t.set_time_to_live(60_000);
    t.set_time_to_idle(60_000);
    t.put(3, 30);
    assert_eq!(t.get(&3), Some(&30));
    assert!(t.remove(&3).is_some());
    assert_eq!(t.get(&3), None);
}

#[test]
fn deadlines_and_expiry_rule() {
    assert_eq!(deadline(100, Some(50)), 150);
    assert_eq!(deadline(100, None), i64::MAX);
    assert_eq!(deadline(i64::MAX - 1, Some(10)), i64::MAX);
    assert_eq!(deadline(i64::MIN + 1, Some(-10)), i64::MIN);
    assert!(expired(10, 5, 20));
    assert!(expired(10, 20, 5));
    assert!(!expired(10, 10, 10));
}

#[test]
fn many_random_puts_and_removes_match_a_std_map() {
    let mut tree = BTree::new(5);
    let mut std_map = BTreeMap::new();
    let mut x: u64 = 12345;
    for step in 0..20000u64 {
        x = x.wrapping_mul(6364136223846793005).wrapping_add(1442695040888963407);
        let k = (x >> 33) % 2000;
        if step % 3 == 0 {
            assert_eq!(tree.remove(&k).map(|it| it.1), std_map.remove(&k));
        } else {
            assert_eq!(tree.put(k, step).map(|it| it.1), std_map.insert(k, step));
        }
    }
    assert_eq!(tree.len(), std_map.len());
    let got: Vec<(u64, u64)> = tree.iter().collect_next().iter().map(|it| (it.0, it.1)).collect();
    let want: Vec<(u64, u64)> = std_map.iter().map(|(k, v)| (*k, *v)).collect();
    assert_eq!(got, want);
    let back: Vec<u64> = tree.iter().collect_prev().iter().map(|it| it.0).collect();
    let want_back: Vec<u64> = std_map.keys().rev().cloned().collect();
    assert_eq!(back, want_back);
}

#[test]
fn batch_put_ttl_expires_later() {
    let mut tree = BTree::new(4);
    let mut bw = BatchWrite::new();
    bw.put_ttl(1, 10, Duration::from_secs(3600));
    bw.put(2, 20);
    tree.write(bw);
    let first = tree.min().unwrap().clone();
    let now = std::time::SystemTime::now()
        .duration_since(std::time::UNIX_EPOCH)
        .unwrap()
        .as_millis() as u64;
    let expiry = first.2.unwrap();
    assert!(expiry > now + 3_500_000 && expiry <= now + 3_600_000);
    assert_eq!(keys_forward(&tree.expir()), vec![1, 2]);
    assert_eq!(keys_forward(&tree.expir_at(expiry + 1)), vec![2]);
}

#[test]
fn leaf_put_splits_when_full() {
    let leaf = Leaf { items: (0..4u64).map(|k| Arc::new((k * 10, k, None))).collect() };
    let (nodes, old) = leaf.put(4, 15, 99, None);
    assert!(old.is_none());
    assert_eq!(nodes.len(), 2);
    let keys = |n: &Arc<BTreeType<u64>>| match &**n {
        BTreeType::Leaf(l) => l.items.iter().map(|it| it.0).collect::<Vec<u64>>(),
        BTreeType::Node(_) => vec![],
    };
    assert_eq!(keys(&nodes[0]), vec![0, 10, 15]);
    assert_eq!(keys(&nodes[1]), vec![20, 30]);
    let (nodes, old) = leaf.put(4, 20, 7, None);
    assert_eq!(old.map(|it| it.1), Some(2));
    assert_eq!(keys(&nodes[0]), vec![0, 10]);
    assert_eq!(keys(&nodes[1]), vec![20, 30]);
    assert_eq!(leaf.search_index(&20), Ok(2));
    assert_eq!(leaf.search_index(&25), Err(3));
    let (l, r) = leaf.split_off(&15);
    assert_eq!((l.len(), r.len()), (2, 2));
    assert!(leaf.remove(&5).is_none());
    assert_eq!(leaf.remove(&10).map(|(n, it)| (n.len(), it.0)), Some((3, 10)));
}

#[test]
fn ttl_tree_batches_and_iterates() {
    let mut t: TTLBTree<u64> = TTLBTree::new(4);
    t.set_max_capacity(100);
    for k in 0..10u64 {
        t.put(k, k);
    }
    let mut c = t.iter();
    assert_eq!(c.collect_next().len(), 10);
    let bw = BatchWrite::new();
    t.write(bw);
    assert_eq!(t.get(&9), Some(&9));
}
