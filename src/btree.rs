//! The handle: a fan-out and a root, shared with every snapshot taken of it.

use std::sync::Arc;
use std::time::Duration;
use vstd::prelude::*;

use crate::batch_write::{sorted_actions, BatchWrite};
use crate::clock::{duration_millis, expiry_after, now_millis};
use crate::cursor::Iterator;
use crate::leaf::Leaf;
use crate::model::{
    apply, at, at_least, below, lemma_map_keys, lemma_map_merge, lemma_map_put, lemma_merge_facts,
    lemma_trichotomy, live, merge, other, put_seq, sorted, to_map,
};
use crate::node::{chunk_nodes, Node};
use crate::tree::{flat, lemma_flat_one, Entry, Item, N};

verus! {

/// An ordered map from `u64` keys, held as a persistent B-tree. A clone shares the
/// whole tree and is a snapshot: later changes to either leave the other as it was.
pub struct BTree<V> {
    /// The fan-out: the most items of a leaf and the most children of a node.
    pub m: usize,
    pub root: N<V>,
}

impl<V> View for BTree<V> {
    type V = Map<u64, Entry<V>>;

    open spec fn view(&self) -> Map<u64, Entry<V>> {
        to_map(self.entries())
    }
}

impl<V> BTree<V> {
    /// The entries in ascending key order.
    pub open spec fn entries(&self) -> Seq<Entry<V>> {
        self.root.entries()
    }

    pub open spec fn wf(&self) -> bool {
        &&& self.m >= 4
        &&& self.root.usable()
        &&& self.root.fits(self.m as nat)
        &&& self.root.balanced()
    }

    /// An empty tree of fan-out `m`.
    pub fn new(m: usize) -> (r: Self)
        requires
            m >= 4,
        ensures
            r.wf(),
            r.m == m,
            r.entries() == Seq::<Entry<V>>::empty(),
            r@ == Map::<u64, Entry<V>>::empty(),
    {
        let r = BTree { m, root: Leaf::instance(Vec::new()) };
        assert(r.entries() =~= Seq::<Entry<V>>::empty());
        assert(r@ =~= Map::<u64, Entry<V>>::empty());
        r
    }

    /// Puts `v` under `k`, to expire at `expiry` if that is given; hands back the
    /// item it replaced.
    pub fn put_expiring(&mut self, k: u64, v: V, expiry: Option<u64>) -> (r: Option<Item<V>>)
        requires
            old(self).wf(),
            old(self).entries().len() < usize::MAX,
        ensures
            final(self).wf(),
            final(self).m == old(self).m,
            final(self).entries() == put_seq(old(self).entries(), (k, v, expiry)),
            final(self)@ == old(self)@.insert(k, (k, v, expiry)),
            match r {
                Some(it) => old(self)@.contains_key(k) && *it == old(self)@[k],
                None => !old(self)@.contains_key(k),
            },
    {
        let ghost s = self.entries();
        let ghost e: Entry<V> = (k, v, expiry);
        let (values, old) = self.root.put(self.m, k, v, expiry);
        proof {
            lemma_trichotomy(s, k);
            lemma_map_put(s, e);
        }
        if values.len() > 1 {
            let ghost vs = values@;
            let ghost l = self.root.level();
            self.root = Node::instance(values);
            assert(self.root.fits(self.m as nat));
            proof {
                crate::tree::lemma_instance_level(self.root, vs, l);
            }
        } else {
            proof {
                lemma_flat_one(values@);
            }
            self.root = values[0].clone();
        }
        old
    }

    /// Puts `v` under `k`; hands back the item it replaced.
    pub fn put(&mut self, k: u64, v: V) -> (r: Option<Item<V>>)
        requires
            old(self).wf(),
            old(self).entries().len() < usize::MAX,
        ensures
            final(self).wf(),
            final(self).m == old(self).m,
            final(self).entries() == put_seq(old(self).entries(), (k, v, None)),
            final(self)@ == old(self)@.insert(k, (k, v, None)),
            match r {
                Some(it) => old(self)@.contains_key(k) && *it == old(self)@[k],
                None => !old(self)@.contains_key(k),
            },
    {
        self.put_expiring(k, v, None)
    }

    /// Puts `v` under `k`, to expire `ttl` from now.
    pub fn put_ttl(&mut self, k: u64, v: V, ttl: Duration) -> (r: Option<Item<V>>)
        requires
            old(self).wf(),
            old(self).entries().len() < usize::MAX,
        ensures
            final(self).wf(),
            final(self).m == old(self).m,
            exists|t: u64| final(self)@ == old(self)@.insert(k, (k, v, Some(t))),
            match r {
                Some(it) => old(self)@.contains_key(k) && *it == old(self)@[k],
                None => !old(self)@.contains_key(k),
            },
    {
        let now = now_millis();
        let d = duration_millis(ttl);
        self.put_expiring(k, v, Some(expiry_after(now, d)))
    }

    /// Removes the item of key `k`, handing it back.
    pub fn remove(&mut self, k: &u64) -> (r: Option<Item<V>>)
        requires
            old(self).wf(),
        ensures
            final(self).wf(),
            final(self).m == old(self).m,
            final(self).entries() == old(self).entries().filter(other(*k)),
            final(self)@ == old(self)@.remove(*k),
            match r {
                Some(it) => old(self)@.contains_key(*k) && *it == old(self)@[*k],
                None => !old(self)@.contains_key(*k),
            },
    {
        let ghost s = self.entries();
        proof {
            lemma_map_keys(s, other(*k), |j: u64| j != *k);
            assert(to_map(s).restrict(Set::new(|j: u64| j != *k)) =~= to_map(s).remove(*k));
        }
        match self.root.remove(k) {
            None => {
                proof {
                    assert(s.filter(other(*k)) =~= s) by {
                        assert forall|i: int| 0 <= i < s.len() implies other(*k)(s[i]) by {
                            if s[i].0 == *k {
                                s.lemma_filter_contains(at(*k), i);
                            }
                        }
                        crate::model::lemma_filter_all(s, other(*k));
                    }
                    assert(to_map(s).remove(*k) =~= to_map(s));
                }
                None
            },
            Some((node, item)) => {
                if node.len() == 0 {
                    self.root = Leaf::instance(Vec::new());
                    assert(self.entries() =~= s.filter(other(*k)));
                } else {
                    self.root = node;
                }
                Some(item)
            },
        }
    }

    /// Applies a batch: its actions go down the tree in one pass, and the nodes that come
    /// back are regrouped by `m` until one root holds them.
    pub fn write(&mut self, batch_write: BatchWrite<V>)
        requires
            old(self).wf(),
            old(self).entries().len() + batch_write@.len() <= usize::MAX,
        ensures
            final(self).wf(),
            final(self).m == old(self).m,
            final(self)@ == apply(old(self)@, batch_write@),
    {
        let ghost s = self.entries();
        let ghost am = batch_write@;
        let actions = sorted_actions(batch_write.into_map());
        proof {
            lemma_map_merge(s, actions@, am);
            lemma_merge_facts(s, actions@, 0);
        }
        let ghost merged = merge(s, actions@);
        let mut nodes = self.root.write(self.m, actions);
        let ghost mut lvl = self.root.level();
        while nodes.len() > self.m
            invariant
                self.wf(),
                crate::tree::all_wf(nodes@),
                crate::tree::all_fit(nodes@, self.m as nat),
                crate::tree::all_level(nodes@, lvl),
                flat(nodes@) == merged,
                sorted(merged),
                merged.len() <= usize::MAX,
            decreases nodes@.len(),
        {
            nodes = chunk_nodes(&nodes, self.m, Ghost(lvl));
            proof {
                lvl = lvl + 1;
            }
        }
        if nodes.len() > 1 {
            let ghost ns = nodes@;
            self.root = Node::instance(nodes);
            assert(self.root.fits(self.m as nat));
            proof {
                crate::tree::lemma_instance_level(self.root, ns, lvl);
            }
        } else if nodes.len() == 1 {
            proof {
                lemma_flat_one(nodes@);
            }
            self.root = nodes[0].clone();
        } else {
            self.root = Leaf::instance(Vec::new());
            assert(self.entries() =~= merged);
        }
    }

    /// Splits at `k`: keeps the keys below `k` and hands back a tree of the rest.
    pub fn split_off(&mut self, k: &u64) -> (r: BTree<V>)
        requires
            old(self).wf(),
        ensures
            final(self).wf(),
            r.wf(),
            final(self).m == old(self).m,
            r.m == old(self).m,
            final(self).entries() == old(self).entries().filter(below(*k)),
            r.entries() == old(self).entries().filter(at_least(*k)),
            final(self)@ == old(self)@.restrict(Set::new(|j: u64| j < *k)),
            r@ == old(self)@.restrict(Set::new(|j: u64| j >= *k)),
    {
        let ghost s = self.entries();
        proof {
            lemma_map_keys(s, below(*k), |j: u64| j < *k);
            lemma_map_keys(s, at_least(*k), |j: u64| j >= *k);
        }
        let (left, right) = self.root.split_off(k);
        let l = if left.len() == 0 {
            Leaf::instance(Vec::new())
        } else {
            left
        };
        let r = if right.len() == 0 {
            Leaf::instance(Vec::new())
        } else {
            right
        };
        assert(l.entries() =~= s.filter(below(*k)));
        assert(r.entries() =~= s.filter(at_least(*k)));
        self.root = l;
        BTree { m: self.m, root: r }
    }

    /// The value under `k`.
    pub fn get(&self, k: &u64) -> (r: Option<&V>)
        requires
            self.wf(),
        ensures
            match r {
                Some(v) => self@.contains_key(*k) && *v == self@[*k].1,
                None => !self@.contains_key(*k),
            },
    {
        if self.root.len() == 0 {
            return None;
        }
        self.root.get(k)
    }

    pub fn len(&self) -> (r: usize)
        requires
            self.wf(),
        ensures
            r == self.entries().len(),
            r == self@.len(),
    {
        proof {
            crate::laws::lemma_listing(self.entries());
        }
        self.root.len()
    }

    pub fn is_empty(&self) -> (r: bool)
        requires
            self.wf(),
        ensures
            r == (self.entries().len() == 0),
    {
        self.root.is_empty()
    }

    /// The item of the least key.
    pub fn min(&self) -> (r: Option<&Item<V>>)
        requires
            self.wf(),
        ensures
            match r {
                Some(it) => self.entries().len() > 0 && **it == self.entries()[0],
                None => self.entries().len() == 0,
            },
    {
        self.root.key()
    }

    /// The item of the greatest key.
    pub fn max(&self) -> (r: Option<&Item<V>>)
        requires
            self.wf(),
        ensures
            match r {
                Some(it) => self.entries().len() > 0 && **it == self.entries().last(),
                None => self.entries().len() == 0,
            },
    {
        self.root.max()
    }

    /// A cursor over a snapshot of this tree, before its first entry.
    pub fn iter(&self) -> (r: Iterator<V>)
        requires
            self.wf(),
        ensures
            r.valid(),
            r.inner == *self,
            !r.done(),
            r.next_index() == 0,
            r.prev_index() == self.entries().len() - 1,
    {
        Iterator::new(BTree { m: self.m, root: self.root.clone() })
    }

    /// A tree of the entries that are live at `now`: those with no expiry or one not
    /// before `now`. Subtrees with nothing expired are shared, not rebuilt.
    pub fn expir_at(&self, now: u64) -> (r: BTree<V>)
        requires
            self.wf(),
        ensures
            r.wf(),
            r.m == self.m,
            r.entries() == self.entries().filter(live(now)),
    {
        match self.root.expir(now) {
            None => BTree { m: self.m, root: self.root.clone() },
            Some(n) => {
                if n.len() == 0 {
                    let r = BTree { m: self.m, root: Leaf::instance(Vec::new()) };
                    assert(r.entries() =~= self.entries().filter(live(now)));
                    r
                } else {
                    BTree { m: self.m, root: n }
                }
            },
        }
    }

    /// A tree of the entries that are live now.
    pub fn expir(&self) -> (r: BTree<V>)
        requires
            self.wf(),
        ensures
            r.wf(),
            r.m == self.m,
            exists|now: u64| r.entries() == self.entries().filter(live(now)),
    {
        let now = now_millis();
        self.expir_at(now)
    }
}

impl<V> Clone for BTree<V> {
    /// Shares the root: the clone is a snapshot of this tree.
    fn clone(&self) -> (r: Self)
        ensures
            r == *self,
    {
        BTree { m: self.m, root: self.root.clone() }
    }
}

} // verus!
