//! A bidirectional cursor over a snapshot of a tree.

use vstd::prelude::*;

use crate::btree::BTree;
use crate::model::{
    at, below, deref_all, lemma_at_mid, lemma_gap, lemma_sorted_pivot, lemma_split_mid,
};
use crate::tree::{flat, lemma_flat_split, lemma_route_key, BTreeType, Entry, Item, N};

verus! {

/// A node on the path from the root, and the last position visited in it: `None`
/// for a node not yet entered, which `next` reads as before its first position and
/// `prev` as after its last.
pub type Frame<V> = (N<V>, Option<usize>);

/// Where position `i` of node `n` starts among its entries.
pub open spec fn pre<V>(n: &BTreeType<V>, i: int) -> int {
    match n {
        BTreeType::Leaf(_) => i,
        BTreeType::Node(nd) => flat(nd.children@.take(i)).len() as int,
    }
}

pub open spec fn child_of<V>(n: &BTreeType<V>, i: int) -> N<V> {
    match n {
        BTreeType::Node(nd) => nd.children@[i],
        BTreeType::Leaf(_) => arbitrary(),
    }
}

pub open spec fn slot<V>(f: Frame<V>) -> int {
    match f.1 {
        Some(i) => i as int,
        None => 0,
    }
}

/// Where the entries of frame `t`'s node start among the root's.
pub open spec fn off<V>(st: Seq<Frame<V>>, t: int) -> int
    decreases t,
{
    if t <= 0 {
        0
    } else {
        off(st, t - 1) + pre(&*st[t - 1].0, slot(st[t - 1]))
    }
}

/// Frame `t` has entered child `slot` of its node, the node of frame `t + 1`.
pub open spec fn link<V>(st: Seq<Frame<V>>, t: int) -> bool {
    &&& *st[t].0 is Node
    &&& st[t].1 is Some
    &&& slot(st[t]) < st[t].0.positions()
    &&& st[t + 1].0 == child_of(&*st[t].0, slot(st[t]))
}

/// The frames form a path down from `root`.
pub open spec fn chain<V>(root: N<V>, st: Seq<Frame<V>>) -> bool {
    &&& st.len() > 0 ==> st[0].0 == root
    &&& forall|t: int| 0 <= t < st.len() - 1 ==> #[trigger] link(st, t)
    &&& st.len() > 0 ==> match st.last().1 {
        Some(i) => i <= st.last().0.positions(),
        None => true,
    }
}

/// The position in a top frame that `next` goes to. In a leaf the slot is the number
/// of items already walked past; in an internal node it is the child being walked.
pub open spec fn next_slot<V>(f: Frame<V>) -> int {
    match f.1 {
        Some(i) => if *f.0 is Leaf {
            if i <= f.0.positions() {
                i as int
            } else {
                f.0.positions() as int
            }
        } else if i + 1 <= f.0.positions() {
            i + 1
        } else {
            f.0.positions() as int
        },
        None => 0,
    }
}

/// The position in a top frame that `prev` goes back from.
pub open spec fn prev_slot<V>(f: Frame<V>) -> int {
    match f.1 {
        Some(i) => i as int,
        None => f.0.positions() as int,
    }
}

/// The index of the entry that `next` hands out from these frames.
pub open spec fn ni<V>(st: Seq<Frame<V>>) -> int {
    off(st, st.len() - 1) + pre(&*st.last().0, next_slot(st.last()))
}

/// The index of the entry that `prev` hands out from these frames.
pub open spec fn pi<V>(st: Seq<Frame<V>>) -> int {
    off(st, st.len() - 1) + pre(&*st.last().0, prev_slot(st.last())) - 1
}

/// Dropping a top frame that `next` has walked off: the frame below goes on from there.
pub proof fn lemma_pop_next<V>(root: N<V>, st: Seq<Frame<V>>)
    requires
        root.wf(),
        chain(root, st),
        st.len() > 0,
        next_slot(st.last()) == st.last().0.positions(),
    ensures
        chain(root, st.drop_last()),
        st.len() > 1 ==> ni(st.drop_last()) == ni(st),
        st.len() == 1 ==> ni(st) == root.entries().len(),
{
    let d = st.len() - 1;
    let s1 = st.drop_last();
    lemma_chain(root, st, d);
    lemma_pre(&*st[d].0, st[d].0.positions() as int);
    assert forall|t: int| 0 <= t < s1.len() - 1 implies #[trigger] link(s1, t) by {
        assert(link(st, t));
    }
    if st.len() > 1 {
        assert(link(st, d - 1));
        lemma_chain(root, st, d - 1);
        lemma_pre(&*st[d - 1].0, slot(st[d - 1]));
        lemma_off_prefix(s1, st, d - 1);
    }
}

/// Dropping a top frame that `prev` has walked off: the frame below goes on from there.
pub proof fn lemma_pop_prev<V>(root: N<V>, st: Seq<Frame<V>>)
    requires
        root.wf(),
        chain(root, st),
        st.len() > 0,
        prev_slot(st.last()) == 0,
    ensures
        chain(root, st.drop_last()),
        st.len() > 1 ==> pi(st.drop_last()) == pi(st),
        st.len() == 1 ==> pi(st) == -1,
{
    let d = st.len() - 1;
    let s1 = st.drop_last();
    lemma_chain(root, st, d);
    lemma_pre(&*st[d].0, 0);
    assert forall|t: int| 0 <= t < s1.len() - 1 implies #[trigger] link(s1, t) by {
        assert(link(st, t));
    }
    if st.len() > 1 {
        assert(link(st, d - 1));
        lemma_chain(root, st, d - 1);
        lemma_pre(&*st[d - 1].0, slot(st[d - 1]));
        lemma_off_prefix(s1, st, d - 1);
    }
}

/// Moving the top frame to position `i` of its node keeps the path.
pub proof fn lemma_move_top<V>(root: N<V>, st: Seq<Frame<V>>, i: usize)
    requires
        root.wf(),
        chain(root, st),
        st.len() > 0,
        i <= st.last().0.positions(),
    ensures
        chain(root, st.update(st.len() - 1, (st.last().0, Some(i)))),
        off(st.update(st.len() - 1, (st.last().0, Some(i))), st.len() - 1) == off(st, st.len() - 1),
{
    let d = st.len() - 1;
    let s2 = st.update(d, (st.last().0, Some(i)));
    lemma_off_prefix(s2, st, d);
    assert forall|t: int| 0 <= t < s2.len() - 1 implies #[trigger] link(s2, t) by {
        assert(link(st, t));
    }
}

/// Entering child `i` of the top frame's node, which sits at position `i`.
pub proof fn lemma_enter<V>(root: N<V>, st: Seq<Frame<V>>, i: usize, c: N<V>, j: Option<usize>)
    requires
        root.wf(),
        chain(root, st),
        st.len() > 0,
        st.last().1 == Some(i),
        *st.last().0 is Node,
        i < st.last().0.positions(),
        c == child_of(&*st.last().0, i as int),
        j matches Some(x) ==> x <= c.positions(),
    ensures
        chain(root, st.push((c, j))),
        off(st, st.len() as int) == off(st, st.len() - 1) + pre(&*st.last().0, i as int),
{
    let d = st.len() - 1;
    let next = st.push((c, j));
    assert forall|t: int| 0 <= t < next.len() - 1 implies #[trigger] link(next, t) by {
        if t < d {
            assert(link(st, t));
        }
    }
}

/// One step down towards key `k`: entering child `idx` of `node`, the child `k` routes to.
pub proof fn lemma_seek_step<V>(root: N<V>, st0: Seq<Frame<V>>, node: N<V>, idx: usize, c: N<V>, k: u64)
    requires
        root.wf(),
        chain(root, st0.push((node, None))),
        node.usable(),
        *node is Node,
        idx < node.positions(),
        idx == 0 || c.entries()[0].0 <= k,
        idx + 1 < node.positions() ==> k < child_of(&*node, idx + 1).entries()[0].0,
        c == child_of(&*node, idx as int),
    ensures
        chain(root, st0.push((node, Some(idx))).push((c, None))),
        off(st0.push((node, Some(idx))), st0.len() + 1int) == off(st0, st0.len() as int) + pre(&*node, idx as int),
        c.usable(),
        node.entries().filter(below(k)).len() == pre(&*node, idx as int) + c.entries().filter(below(k)).len(),
        node.entries().filter(at(k)).len() == c.entries().filter(at(k)).len(),
{
    let d = st0.len() as int;
    let pushed = st0.push((node, None));
    let st = st0.push((node, Some(idx)));
    assert forall|t: int| 0 <= t < st.len() - 1 implies #[trigger] link(st, t) by {
        assert(link(pushed, t));
    }
    lemma_off_prefix(st, st0, d);
    lemma_enter(root, st, idx, c, None);
    match &*node {
        BTreeType::Node(n) => {
            let cs = n.children@;
            lemma_route_key(cs, idx as int, k);
            let a = flat(cs.take(idx as int));
            let b = flat(cs.skip(idx + 1));
            lemma_split_mid(a, cs[idx as int].entries(), b, k);
            lemma_at_mid(a, cs[idx as int].entries(), b, k);
            assert(cs[idx as int].wf() && cs[idx as int].entries().len() > 0);
        },
        BTreeType::Leaf(_) => {},
    }
}

pub proof fn lemma_off_prefix<V>(a: Seq<Frame<V>>, b: Seq<Frame<V>>, t: int)
    requires
        0 <= t <= a.len(),
        t <= b.len(),
        forall|u: int| 0 <= u < t ==> a[u] == b[u],
    ensures
        off(a, t) == off(b, t),
    decreases t,
{
    if t > 0 {
        lemma_off_prefix(a, b, t - 1);
    }
}

/// Position `i` of a well-formed node: where it starts, and the child or item there.
pub proof fn lemma_pre<V>(n: &BTreeType<V>, i: int)
    requires
        n.wf(),
        0 <= i <= n.positions(),
    ensures
        pre(n, 0) == 0,
        pre(n, n.positions() as int) == n.entries().len(),
        0 <= pre(n, i) <= n.entries().len(),
        i < n.positions() ==> match n {
            BTreeType::Leaf(_) => pre(n, i + 1) == pre(n, i) + 1,
            BTreeType::Node(nd) => {
                &&& child_of(n, i).wf()
                &&& child_of(n, i).entries().len() > 0
                &&& pre(n, i + 1) == pre(n, i) + child_of(n, i).entries().len()
                &&& forall|x: int|
                    0 <= x < child_of(n, i).entries().len() ==> n.entries()[pre(n, i) + x]
                        == #[trigger] child_of(n, i).entries()[x]
            },
        },
{
    match n {
        BTreeType::Leaf(_) => {},
        BTreeType::Node(nd) => {
            let cs = nd.children@;
            assert(cs.take(0) =~= Seq::<N<V>>::empty());
            assert(flat(cs.take(0)) =~= Seq::<Entry<V>>::empty());
            assert(cs.take(cs.len() as int) =~= cs);
            crate::tree::lemma_flat_window(cs, i, cs.len() as int);
            if i < cs.len() {
                lemma_flat_split(cs, i);
                assert(cs.take(i + 1).drop_last() =~= cs.take(i));
                assert(cs.take(i + 1).last() == cs[i]);
                assert(cs[i].wf() && cs[i].entries().len() > 0);
                let a = flat(cs.take(i));
                let c = cs[i].entries();
                assert forall|x: int| 0 <= x < c.len() implies n.entries()[a.len() + x] == #[trigger] c[x] by {
                    assert((a + c + flat(cs.skip(i + 1)))[a.len() + x] == c[x]);
                }
            }
        },
    }
}

/// A node on the path lies, entry for entry, at its offset among the root's entries.
pub proof fn lemma_chain<V>(root: N<V>, st: Seq<Frame<V>>, t: int)
    requires
        root.wf(),
        chain(root, st),
        0 <= t < st.len(),
    ensures
        st[t].0.wf(),
        t > 0 ==> st[t].0.entries().len() > 0,
        0 <= off(st, t),
        off(st, t) + st[t].0.entries().len() <= root.entries().len(),
        forall|x: int|
            0 <= x < st[t].0.entries().len() ==> root.entries()[off(st, t) + x]
                == #[trigger] st[t].0.entries()[x],
    decreases t,
{
    if t > 0 {
        lemma_chain(root, st, t - 1);
        assert(link(st, t - 1));
        let p = &*st[t - 1].0;
        let i = slot(st[t - 1]);
        lemma_pre(p, i);
        lemma_pre(p, i + 1);
        assert forall|x: int| 0 <= x < st[t].0.entries().len() implies root.entries()[off(st, t) + x]
            == #[trigger] st[t].0.entries()[x] by {
            assert(st[t].0.entries()[x] == child_of(p, i).entries()[x]);
            assert(p.entries()[pre(p, i) + x] == child_of(p, i).entries()[x]);
            assert(root.entries()[off(st, t - 1) + (pre(p, i) + x)] == p.entries()[pre(p, i) + x]);
        }
    }
}

/// What one call of `next` does, from cursor `a` handing out `r` to cursor `b`: the
/// entry at `next_index`, after which `prev` would hand out that same entry; or
/// nothing past the last entry, after which the cursor is done.
pub open spec fn next_step<V>(a: Iterator<V>, r: Option<Item<V>>, b: Iterator<V>) -> bool {
    &&& b.valid()
    &&& b.inner == a.inner
    &&& a.done() ==> r is None && b.done()
    &&& !a.done() && a.next_index() < a.entries().len() ==> {
        &&& r matches Some(it) && *it == a.entries()[a.next_index()]
        &&& !b.done()
        &&& b.next_index() == a.next_index() + 1
        &&& b.prev_index() == a.next_index()
    }
    &&& !a.done() && a.next_index() >= a.entries().len() ==> r is None && b.done()
}

/// What one call of `prev` does, from cursor `a` handing out `r` to cursor `b`: the
/// entry at `prev_index`, after which `next` would hand out that same entry; or
/// nothing before the first entry, after which the cursor is done.
pub open spec fn prev_step<V>(a: Iterator<V>, r: Option<Item<V>>, b: Iterator<V>) -> bool {
    &&& b.valid()
    &&& b.inner == a.inner
    &&& a.done() ==> r is None && b.done()
    &&& !a.done() && a.prev_index() >= 0 ==> {
        &&& r matches Some(it) && *it == a.entries()[a.prev_index()]
        &&& !b.done()
        &&& b.next_index() == a.prev_index()
        &&& b.prev_index() == a.prev_index() - 1
    }
    &&& !a.done() && a.prev_index() < 0 ==> r is None && b.done()
}

/// A cursor over a snapshot of a tree: a path of frames from the root down.
pub struct Iterator<V> {
    pub inner: BTree<V>,
    pub stack: Vec<Frame<V>>,
}

impl<V> Iterator<V> {
    /// The entries the cursor walks, in ascending key order.
    pub open spec fn entries(&self) -> Seq<Entry<V>> {
        self.inner.entries()
    }

    pub open spec fn valid(&self) -> bool {
        self.inner.wf() && chain(self.inner.root, self.stack@)
    }

    /// Walked off either end: no frame is left.
    pub open spec fn done(&self) -> bool {
        self.stack@.len() == 0
    }

    /// The index of the entry that `next` hands out, or the number of entries if none.
    pub open spec fn next_index(&self) -> int {
        ni(self.stack@)
    }

    /// The index of the entry that `prev` hands out, or `-1` if none.
    pub open spec fn prev_index(&self) -> int {
        pi(self.stack@)
    }

    /// A cursor before the first entry of `inner` (and, for `prev`, after the last).
    pub fn new(inner: BTree<V>) -> (r: Self)
        requires
            inner.wf(),
        ensures
            r.valid(),
            r.inner == inner,
            !r.done(),
            r.next_index() == 0,
            r.prev_index() == r.entries().len() - 1,
    {
        let mut stack: Vec<Frame<V>> = Vec::new();
        stack.push((inner.root.clone(), None));
        let r = Iterator { inner, stack };
        proof {
            lemma_pre(&*r.inner.root, 0);
        }
        r
    }

    /// Enters `node`, a child of the top frame, and goes down its first positions to
    /// its first item.
    fn descend_first(&mut self, node: N<V>) -> (r: Item<V>)
        requires
            old(self).inner.wf(),
            chain(old(self).inner.root, old(self).stack@.push((node, Some(0usize)))),
            old(self).stack@.len() > 0,
        ensures
            final(self).inner == old(self).inner,
            final(self).valid(),
            !final(self).done(),
            final(self).next_index() == off(old(self).stack@, old(self).stack@.len() as int) + 1,
            final(self).prev_index() == off(old(self).stack@, old(self).stack@.len() as int),
            *r == final(self).entries()[off(old(self).stack@, old(self).stack@.len() as int)],
        decreases node,
    {
        let ghost root = self.inner.root;
        let ghost st0 = self.stack@;
        let ghost d = st0.len() as int;
        let ghost o = off(st0, d);
        let ghost pushed = st0.push((node, Some(0usize)));
        proof {
            lemma_chain(root, pushed, d);
            lemma_off_prefix(pushed, st0, d);
            assert(pushed[d].0 == node);
            assert(link(pushed, d - 1));
            lemma_pre(&*node, 0);
        }
        match &*node {
            BTreeType::Leaf(l) => {
                let it = l.items[0].clone();
                self.stack.push((node.clone(), Some(1)));
                proof {
                    let st = self.stack@;
                    assert(st == st0.push((node, Some(1usize))));
                    assert forall|t: int| 0 <= t < st.len() - 1 implies #[trigger] link(st, t) by {
                        assert(link(pushed, t));
                    }
                    lemma_off_prefix(st, st0, d);
                    lemma_pre(&*node, 1);
                    assert(node.entries()[0] == *it);
                }
                it
            },
            BTreeType::Node(n) => {
                let c = n.children[0].clone();
                self.stack.push((node.clone(), Some(0)));
                let ghost st1 = self.stack@;
                proof {
                    assert(st1 == pushed);
                    let next = st1.push((c, Some(0usize)));
                    assert forall|t: int| 0 <= t < next.len() - 1 implies #[trigger] link(next, t) by {
                        if t < d {
                            assert(link(pushed, t));
                        }
                    }
                    lemma_off_prefix(next, st1, d + 1);
                    assert(off(st1, d + 1) == o);
                    assert(decreases_to!(node => c));
                }
                let r = self.descend_first(c);
                proof {
                    assert(c.entries()[0] == node.entries()[0]);
                }
                r
            },
        }
    }

    /// Enters `node`, a child of the top frame, and goes down its last positions to
    /// its last item.
    fn descend_last(&mut self, node: N<V>) -> (r: Item<V>)
        requires
            old(self).inner.wf(),
            chain(
                old(self).inner.root,
                old(self).stack@.push((node, Some((node.positions() - 1) as usize))),
            ),
            old(self).stack@.len() > 0,
        ensures
            final(self).inner == old(self).inner,
            final(self).valid(),
            !final(self).done(),
            final(self).next_index() == off(old(self).stack@, old(self).stack@.len() as int)
                + node.entries().len() - 1,
            final(self).prev_index() == off(old(self).stack@, old(self).stack@.len() as int)
                + node.entries().len() - 2,
            *r == final(self).entries()[off(old(self).stack@, old(self).stack@.len() as int)
                + node.entries().len() - 1],
        decreases node,
    {
        let ghost root = self.inner.root;
        let ghost st0 = self.stack@;
        let ghost d = st0.len() as int;
        let ghost o = off(st0, d);
        let ghost last = (node.positions() - 1) as usize;
        let ghost pushed = st0.push((node, Some(last)));
        proof {
            lemma_chain(root, pushed, d);
            lemma_off_prefix(pushed, st0, d);
            assert(pushed[d].0 == node);
            assert(link(pushed, d - 1));
            lemma_pre(&*node, node.positions() as int);
        }
        match &*node {
            BTreeType::Leaf(l) => {
                let cl = l.items.len();
                let it = l.items[cl - 1].clone();
                self.stack.push((node.clone(), Some(cl - 1)));
                proof {
                    assert(self.stack@ == pushed);
                    assert(node.entries()[cl - 1] == *it);
                }
                it
            },
            BTreeType::Node(n) => {
                let cl = n.children.len();
                proof {
                    if cl == 0 {
                        assert(node.entries() =~= Seq::<Entry<V>>::empty());
                    }
                }
                let c = n.children[cl - 1].clone();
                self.stack.push((node.clone(), Some(cl - 1)));
                let ghost st1 = self.stack@;
                proof {
                    assert(st1 == pushed);
                    lemma_pre(&*node, cl - 1);
                    assert(c == child_of(&*node, cl - 1));
                    assert(c.wf());
                    let next = st1.push((c, Some((c.positions() - 1) as usize)));
                    assert forall|t: int| 0 <= t < next.len() - 1 implies #[trigger] link(next, t) by {
                        if t < d {
                            assert(link(pushed, t));
                        }
                    }
                    lemma_off_prefix(next, st1, d + 1);
                    assert(decreases_to!(node => c));
                    let oc = off(st1, d + 1);
                    assert(oc == o + pre(&*node, cl - 1));
                    let x = c.entries().len() - 1;
                    assert(node.entries()[pre(&*node, cl - 1) + x] == c.entries()[x]);
                    lemma_chain(root, pushed, d);
                }
                let r = self.descend_last(c);
                r
            },
        }
    }

    /// The next entry in ascending key order, or `None` past the last, after which the
    /// cursor is done.
    pub fn next(&mut self) -> (r: Option<Item<V>>)
        requires
            old(self).valid(),
        ensures
            next_step(*old(self), r, *final(self)),
    {
        let ghost g = self.next_index();
        let ghost root = self.inner.root;
        if self.stack.len() == 0 {
            return None;
        }
        while self.stack.len() > 0
            invariant
                self.valid(),
                self.inner == old(self).inner,
                root == self.inner.root,
                !old(self).done(),
                g == old(self).next_index(),
                self.stack@.len() > 0 ==> self.next_index() == g,
                self.stack@.len() == 0 ==> g == self.entries().len(),
            decreases self.stack@.len(),
        {
            let ghost st = self.stack@;
            let ghost d = st.len() - 1;
            let (b, idx) = match self.stack.pop() {
                Some(f) => f,
                None => vstd::pervasive::unreached(),
            };
            proof {
                assert(self.stack@ =~= st.drop_last());
                assert(st[d] == (b, idx));
                lemma_chain(root, st, d);
            }
            let cl = b.children_len();
            let is_leaf = match &*b {
                BTreeType::Leaf(_) => true,
                BTreeType::Node(_) => false,
            };
            let i: usize = match idx {
                None => 0,
                Some(i) => if is_leaf {
                    if i <= cl {
                        i
                    } else {
                        cl
                    }
                } else if i < cl {
                    i + 1
                } else {
                    cl
                },
            };
            if i < cl {
                match &*b {
                    BTreeType::Leaf(l) => {
                        let it = l.items[i].clone();
                        self.stack.push((b.clone(), Some(i + 1)));
                        proof {
                            assert(self.stack@ == st.update(d, (b, Some((i + 1) as usize))));
                            lemma_move_top(root, st, (i + 1) as usize);
                            lemma_pre(&*b, i as int);
                            lemma_chain(root, st, d);
                            assert(b.entries()[i as int] == *it);
                        }
                        return Some(it);
                    },
                    BTreeType::Node(n) => {
                        let c = n.children[i].clone();
                        self.stack.push((b.clone(), Some(i)));
                        proof {
                            assert(self.stack@ == st.update(d, (b, Some(i))));
                            lemma_move_top(root, st, i);
                            lemma_pre(&*b, i as int);
                            lemma_pre(&*b, i + 1);
                            lemma_chain(root, self.stack@, d);
                            lemma_enter(root, self.stack@, i, c, Some(0));
                        }
                        let it = self.descend_first(c);
                        return Some(it);
                    },
                }
            }
            proof {
                lemma_pop_next(root, st);
            }
        }
        None
    }

    /// The previous entry, going down in key order, or `None` before the first, after
    /// which the cursor is done.
    pub fn prev(&mut self) -> (r: Option<Item<V>>)
        requires
            old(self).valid(),
        ensures
            prev_step(*old(self), r, *final(self)),
    {
        let ghost g = self.prev_index();
        let ghost root = self.inner.root;
        if self.stack.len() == 0 {
            return None;
        }
        while self.stack.len() > 0
            invariant
                self.valid(),
                self.inner == old(self).inner,
                root == self.inner.root,
                !old(self).done(),
                g == old(self).prev_index(),
                self.stack@.len() > 0 ==> self.prev_index() == g,
                self.stack@.len() == 0 ==> g == -1,
            decreases self.stack@.len(),
        {
            let ghost st = self.stack@;
            let ghost d = st.len() - 1;
            let (b, idx) = match self.stack.pop() {
                Some(f) => f,
                None => vstd::pervasive::unreached(),
            };
            proof {
                assert(self.stack@ =~= st.drop_last());
                assert(st[d] == (b, idx));
                lemma_chain(root, st, d);
            }
            let cl = b.children_len();
            let i: usize = match idx {
                None => cl,
                Some(i) => i,
            };
            if i > 0 {
                let j = i - 1;
                self.stack.push((b.clone(), Some(j)));
                proof {
                    assert(self.stack@ == st.update(d, (b, Some(j))));
                    lemma_move_top(root, st, j);
                    lemma_pre(&*b, j as int);
                    lemma_pre(&*b, i as int);
                    lemma_chain(root, self.stack@, d);
                }
                match &*b {
                    BTreeType::Leaf(l) => {
                        let it = l.items[j].clone();
                        proof {
                            assert(b.entries()[j as int] == *it);
                        }
                        return Some(it);
                    },
                    BTreeType::Node(n) => {
                        let c = n.children[j].clone();
                        proof {
                            assert(c == child_of(&*b, j as int));
                            lemma_pre(&*c, c.positions() as int);
                            lemma_enter(root, self.stack@, j, c, Some((c.positions() - 1) as usize));
                        }
                        let it = self.descend_last(c);
                        return Some(it);
                    },
                }
            }
            proof {
                lemma_pop_prev(root, st);
            }
        }
        None
    }

    /// Enters `node`, a child of the top frame (or the root), and goes down the
    /// positions that `k` routes to, so that `next` hands out the first key from `k` on.
    fn seek_down(&mut self, node: N<V>, k: u64)
        requires
            old(self).inner.wf(),
            chain(old(self).inner.root, old(self).stack@.push((node, None))),
            node.usable(),
            off(old(self).stack@, old(self).stack@.len() as int) + node.entries().filter(below(k)).len()
                == old(self).entries().filter(below(k)).len(),
        ensures
            final(self).inner == old(self).inner,
            final(self).valid(),
            !final(self).done(),
            final(self).next_index() == final(self).entries().filter(below(k)).len(),
        decreases node,
    {
        let ghost root = self.inner.root;
        let ghost st0 = self.stack@;
        let ghost d = st0.len() as int;
        let ghost pushed = st0.push((node, None));
        proof {
            lemma_off_prefix(pushed, st0, d);
            if d > 0 {
                assert(link(pushed, d - 1));
            }
        }
        match &*node {
            BTreeType::Leaf(l) => {
                let ghost s = l.entries();
                let i = match l.search_index(&k) {
                    Ok(i) => {
                        proof {
                            lemma_sorted_pivot(s, i as int);
                        }
                        i
                    },
                    Err(i) => {
                        proof {
                            lemma_gap(s, i as int, i as int, k);
                        }
                        i
                    },
                };
                let slot = Some(i);
                self.stack.push((node.clone(), slot));
                proof {
                    let st = self.stack@;
                    assert(st == st0.push((node, slot)));
                    assert forall|t: int| 0 <= t < st.len() - 1 implies #[trigger] link(st, t) by {
                        assert(link(pushed, t));
                    }
                    lemma_off_prefix(st, st0, d);
                }
            },
            BTreeType::Node(n) => {
                let idx = n.search_index(&k);
                let c = n.children[idx].clone();
                self.stack.push((node.clone(), Some(idx)));
                proof {
                    assert(self.stack@ == st0.push((node, Some(idx))));
                    lemma_seek_step(root, st0, node, idx, c, k);
                    assert(decreases_to!(node => c));
                }
                self.seek_down(c, k);
            },
        }
    }

    /// Places the cursor so that `next` hands out the first entry whose key is `key` or above.
    pub fn seek(&mut self, key: &u64)
        requires
            old(self).valid(),
        ensures
            final(self).valid(),
            final(self).inner == old(self).inner,
            !final(self).done(),
            final(self).next_index() == final(self).entries().filter(below(*key)).len(),
    {
        self.stack.clear();
        let root = self.inner.root.clone();
        proof {
            assert(self.stack@.push((root, None))[0].0 == root);
        }
        self.seek_down(root, *key);
    }

    /// Enters `node`, a child of the top frame (or the root), and goes down the
    /// positions that `k` routes to, so that `prev` hands out the last key up to `k`.
    fn seek_prev_down(&mut self, node: N<V>, k: u64)
        requires
            old(self).inner.wf(),
            chain(old(self).inner.root, old(self).stack@.push((node, None))),
            node.usable(),
            off(old(self).stack@, old(self).stack@.len() as int) + node.entries().filter(below(k)).len()
                + node.entries().filter(at(k)).len() == old(self).entries().filter(below(k)).len()
                + old(self).entries().filter(at(k)).len(),
        ensures
            final(self).inner == old(self).inner,
            final(self).valid(),
            !final(self).done(),
            final(self).prev_index() == final(self).entries().filter(below(k)).len()
                + final(self).entries().filter(at(k)).len() - 1,
        decreases node,
    {
        let ghost root = self.inner.root;
        let ghost st0 = self.stack@;
        let ghost d = st0.len() as int;
        let ghost pushed = st0.push((node, None));
        proof {
            lemma_off_prefix(pushed, st0, d);
            if d > 0 {
                assert(link(pushed, d - 1));
            }
        }
        match &*node {
            BTreeType::Leaf(l) => {
                let ghost s = l.entries();
                let cl = l.items.len();
                let i = match l.search_index(&k) {
                    Ok(i) => {
                        proof {
                            lemma_sorted_pivot(s, i as int);
                        }
                        assert(i < cl);
                        i + 1
                    },
                    Err(i) => {
                        proof {
                            lemma_gap(s, i as int, i as int, k);
                        }
                        i
                    },
                };
                self.stack.push((node.clone(), Some(i)));
                proof {
                    let st = self.stack@;
                    assert(st == st0.push((node, Some(i))));
                    assert forall|t: int| 0 <= t < st.len() - 1 implies #[trigger] link(st, t) by {
                        assert(link(pushed, t));
                    }
                    lemma_off_prefix(st, st0, d);
                }
            },
            BTreeType::Node(n) => {
                let idx = n.search_index(&k);
                let c = n.children[idx].clone();
                self.stack.push((node.clone(), Some(idx)));
                proof {
                    assert(self.stack@ == st0.push((node, Some(idx))));
                    lemma_seek_step(root, st0, node, idx, c, k);
                    assert(decreases_to!(node => c));
                }
                self.seek_prev_down(c, k);
            },
        }
    }

    /// Places the cursor so that `prev` hands out the last entry whose key is `key` or below.
    pub fn seek_prev(&mut self, key: &u64)
        requires
            old(self).valid(),
        ensures
            final(self).valid(),
            final(self).inner == old(self).inner,
            !final(self).done(),
            final(self).prev_index() == final(self).entries().filter(below(*key)).len()
                + final(self).entries().filter(at(*key)).len() - 1,
    {
        self.stack.clear();
        let root = self.inner.root.clone();
        proof {
            assert(self.stack@.push((root, None))[0].0 == root);
        }
        self.seek_prev_down(root, *key);
    }

    /// Every entry that repeated calls of `next` hand out, in order, until the cursor
    /// is done.
    pub fn collect_next(&mut self) -> (r: Vec<Item<V>>)
        requires
            old(self).valid(),
        ensures
            final(self).valid(),
            final(self).done(),
            final(self).inner == old(self).inner,
            old(self).done() ==> r@.len() == 0,
            !old(self).done() ==> deref_all(r@) == old(self).entries().subrange(
                old(self).next_index(),
                old(self).entries().len() as int,
            ),
    {
        let ghost n = self.entries().len() as int;
        let ghost start = self.next_index();
        let mut out: Vec<Item<V>> = Vec::new();
        if self.stack.len() == 0 {
            return out;
        }
        proof {
            let st = self.stack@;
            lemma_chain(self.inner.root, st, st.len() - 1);
            lemma_pre(&*st.last().0, next_slot(st.last()));
            assert(deref_all(out@) =~= self.entries().subrange(start, start));
        }
        loop
            invariant
                self.valid(),
                self.inner == old(self).inner,
                n == self.entries().len(),
                !old(self).done(),
                0 <= start <= n,
                !self.done() ==> start <= self.next_index() <= n,
                !self.done() ==> deref_all(out@) == self.entries().subrange(start, self.next_index()),
                self.done() ==> deref_all(out@) == self.entries().subrange(start, n),
            ensures
                self.valid(),
                self.done(),
                self.inner == old(self).inner,
                deref_all(out@) == self.entries().subrange(start, n),
            decreases (if self.done() { 0 } else { n + 1 - self.next_index() }),
        {
            if self.stack.len() == 0 {
                break;
            }
            let ghost before = self.next_index();
            match self.next() {
                Some(it) => {
                    let ghost prev = out@;
                    out.push(it);
                    proof {
                        assert(deref_all(out@) =~= deref_all(prev) + seq![*it]);
                        assert(self.entries().subrange(start, before + 1) =~= self.entries().subrange(start, before) + seq![self.entries()[before]]);
                    }
                },
                None => {
                    break;
                },
            }
        }
        out
    }

    /// Every entry that repeated calls of `prev` hand out, in order, until the cursor
    /// is done.
    pub fn collect_prev(&mut self) -> (r: Vec<Item<V>>)
        requires
            old(self).valid(),
        ensures
            final(self).valid(),
            final(self).done(),
            final(self).inner == old(self).inner,
            old(self).done() ==> r@.len() == 0,
            !old(self).done() ==> deref_all(r@) == old(self).entries().subrange(
                0,
                old(self).prev_index() + 1,
            ).reverse(),
    {
        let ghost start = self.prev_index();
        let mut out: Vec<Item<V>> = Vec::new();
        if self.stack.len() == 0 {
            return out;
        }
        proof {
            let st = self.stack@;
            lemma_chain(self.inner.root, st, st.len() - 1);
            lemma_pre(&*st.last().0, prev_slot(st.last()));
            assert(deref_all(out@) =~= self.entries().subrange(start + 1, start + 1).reverse());
        }
        loop
            invariant
                self.valid(),
                self.inner == old(self).inner,
                !old(self).done(),
                -1 <= start < self.entries().len(),
                !self.done() ==> -1 <= self.prev_index() <= start,
                !self.done() ==> deref_all(out@) == self.entries().subrange(self.prev_index() + 1, start + 1).reverse(),
                self.done() ==> deref_all(out@) == self.entries().subrange(0, start + 1).reverse(),
            ensures
                self.valid(),
                self.done(),
                self.inner == old(self).inner,
                deref_all(out@) == self.entries().subrange(0, start + 1).reverse(),
            decreases (if self.done() { 0 } else { self.prev_index() + 2 }),
        {
            if self.stack.len() == 0 {
                break;
            }
            let ghost before = self.prev_index();
            match self.prev() {
                Some(it) => {
                    let ghost prev = out@;
                    out.push(it);
                    proof {
                        assert(deref_all(out@) =~= deref_all(prev) + seq![*it]);
                        assert(self.entries().subrange(before, start + 1).reverse() =~= self.entries().subrange(before + 1, start + 1).reverse() + seq![self.entries()[before]]);
                    }
                },
                None => {
                    proof {
                        assert(self.entries().subrange(0, start + 1) =~= self.entries().subrange(before + 1, start + 1));
                    }
                    break;
                },
            }
        }
        out
    }

    /// Back to where a new cursor stands.
    pub fn reset(&mut self)
        requires
            old(self).valid(),
        ensures
            final(self).valid(),
            final(self).inner == old(self).inner,
            !final(self).done(),
            final(self).next_index() == 0,
            final(self).prev_index() == final(self).entries().len() - 1,
    {
        self.stack.clear();
        self.stack.push((self.inner.root.clone(), None));
        proof {
            lemma_pre(&*self.inner.root, 0);
        }
    }
}

} // verus!
