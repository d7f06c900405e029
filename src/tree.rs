//! The node type of the tree and the model every node stands for.

use std::sync::Arc;
use vstd::prelude::*;

use crate::leaf::Leaf;
use crate::batch_write::Action;
use crate::model::{
    acts_sorted, at, at_least, before, below, displaced, keys_above, keys_below, lemma_sorted_three,
    live, merge, min_expiry, other, put_seq, sorted,
};
use crate::node::Node;

verus! {

/// A key, its value and the instant (in milliseconds) at which it expires, if any.
pub type Entry<V> = (u64, V, Option<u64>);

/// An entry shared between the leaves of every snapshot that holds it.
pub type Item<V> = Arc<Entry<V>>;

pub enum BTreeType<V> {
    Leaf(Leaf<V>),
    Node(Node<V>),
}

impl<V> BTreeType<V> {
    pub open spec fn entries(&self) -> Seq<Entry<V>>
        decreases self,
    {
        match self {
            BTreeType::Leaf(l) => l.entries(),
            BTreeType::Node(n) => flat(n.children@),
        }
    }

    /// No leaf below holds more than `m` items, and no node more than `m` children.
    pub open spec fn fits(&self, m: nat) -> bool
        decreases self,
    {
        match self {
            BTreeType::Leaf(l) => l.items@.len() <= m,
            BTreeType::Node(n) => n.fits(m),
        }
    }

    /// How many levels of internal nodes lie above the leaves, read down first children.
    pub open spec fn level(&self) -> nat
        decreases self,
    {
        match self {
            BTreeType::Leaf(_) => 0,
            BTreeType::Node(n) => if n.children@.len() == 0 {
                1
            } else {
                1 + n.children@[0].level()
            },
        }
    }

    /// Every leaf below lies at the same depth.
    pub open spec fn balanced(&self) -> bool
        decreases self,
    {
        match self {
            BTreeType::Leaf(_) => true,
            BTreeType::Node(n) => n.balanced(),
        }
    }

    pub open spec fn wf(&self) -> bool
        decreases self,
    {
        match self {
            BTreeType::Leaf(l) => sorted(l.entries()),
            BTreeType::Node(n) => n.inv(),
        }
    }
}

} // verus!

verus! {

pub type N<V> = Arc<BTreeType<V>>;

/// A child of a run of siblings, with the entries of the siblings before and after it.
pub proof fn lemma_route<V>(cs: Seq<N<V>>, i: int)
    requires
        all_wf(cs),
        sorted(flat(cs)),
        0 <= i < cs.len(),
    ensures
        flat(cs) == flat(cs.take(i)) + cs[i].entries() + flat(cs.skip(i + 1)),
        sorted(flat(cs.take(i))),
        sorted(cs[i].entries()),
        sorted(flat(cs.skip(i + 1))),
        before(flat(cs.take(i)), cs[i].entries()),
        before(cs[i].entries(), flat(cs.skip(i + 1))),
        before(flat(cs.take(i)), flat(cs.skip(i + 1))),
        i == 0 ==> flat(cs.take(i)).len() == 0,
        i + 1 < cs.len() ==> flat(cs.skip(i + 1)).len() > 0 && flat(cs.skip(i + 1))[0] == cs[i
            + 1].entries()[0],
{
    lemma_flat_split(cs, i);
    lemma_sorted_three(flat(cs.take(i)), cs[i].entries(), flat(cs.skip(i + 1)));
    if i == 0 {
        assert(cs.take(0) =~= Seq::<N<V>>::empty());
    }
    if i + 1 < cs.len() {
        let rest = cs.skip(i + 1);
        lemma_flat_split(rest, 0);
        assert(rest.take(0) =~= Seq::<N<V>>::empty());
        assert(flat(rest.take(0)) =~= Seq::<Entry<V>>::empty());
        assert(rest[0] == cs[i + 1]);
        assert(cs[i + 1].wf() && cs[i + 1].entries().len() > 0);
    }
}

/// With `k` routed to child `i`, the siblings before it lie below `k` and those after above it.
pub proof fn lemma_route_key<V>(cs: Seq<N<V>>, i: int, k: u64)
    requires
        all_wf(cs),
        sorted(flat(cs)),
        0 <= i < cs.len(),
        i == 0 || cs[i].entries()[0].0 <= k,
        i + 1 < cs.len() ==> k < cs[i + 1].entries()[0].0,
    ensures
        flat(cs) == flat(cs.take(i)) + cs[i].entries() + flat(cs.skip(i + 1)),
        keys_below(flat(cs.take(i)), k),
        keys_above(flat(cs.skip(i + 1)), k),
{
    lemma_route(cs, i);
    let a = flat(cs.take(i));
    let b = flat(cs.skip(i + 1));
    assert(cs[i].wf() && cs[i].entries().len() > 0);
    assert forall|j: int| 0 <= j < a.len() implies (#[trigger] a[j]).0 < k by {
        assert(a[j].0 < cs[i].entries()[0].0);
    }
    assert forall|j: int| 0 <= j < b.len() implies (#[trigger] b[j]).0 > k by {
        if j > 0 {
            assert(b[0].0 < b[j].0);
        }
    }
}

/// `n` alone where it holds an entry, else nothing.
pub open spec fn nonempty<V>(n: N<V>) -> Seq<N<V>> {
    if n.entries().len() > 0 {
        seq![n]
    } else {
        Seq::empty()
    }
}

pub proof fn lemma_nonempty<V>(n: N<V>)
    requires
        n.wf(),
    ensures
        flat(nonempty(n)) == n.entries(),
        all_wf(nonempty(n)),
{
    if n.entries().len() > 0 {
        lemma_flat_one(nonempty(n));
    } else {
        assert(flat(nonempty(n)) =~= n.entries());
    }
}

pub proof fn lemma_all_wf_add<V>(a: Seq<N<V>>, b: Seq<N<V>>)
    requires
        all_wf(a),
        all_wf(b),
    ensures
        all_wf(a + b),
{
    assert forall|j: int| 0 <= j < (a + b).len() implies (#[trigger] (a + b)[j]).wf() && (a
        + b)[j].entries().len() > 0 by {
        if j < a.len() {
            assert((a + b)[j] == a[j]);
        } else {
            assert((a + b)[j] == b[j - a.len()]);
        }
    }
}

pub proof fn lemma_all_wf_sub<V>(cs: Seq<N<V>>, lo: int, hi: int)
    requires
        all_wf(cs),
        0 <= lo <= hi <= cs.len(),
    ensures
        all_wf(cs.subrange(lo, hi)),
{
    assert forall|j: int| 0 <= j < hi - lo implies (#[trigger] cs.subrange(lo, hi)[j]).wf()
        && cs.subrange(lo, hi)[j].entries().len() > 0 by {
        assert(cs.subrange(lo, hi)[j] == cs[lo + j]);
    }
}

/// A window `lo..hi` of a run of siblings.
pub proof fn lemma_flat_window<V>(cs: Seq<N<V>>, lo: int, hi: int)
    requires
        0 <= lo <= hi <= cs.len(),
    ensures
        flat(cs) == flat(cs.take(lo)) + flat(cs.subrange(lo, hi)) + flat(cs.skip(hi)),
        flat(cs.take(hi)) == flat(cs.take(lo)) + flat(cs.subrange(lo, hi)),
        flat(cs.skip(lo)) == flat(cs.subrange(lo, hi)) + flat(cs.skip(hi)),
{
    assert(cs.take(hi) =~= cs.take(lo) + cs.subrange(lo, hi));
    assert(cs.skip(lo) =~= cs.subrange(lo, hi) + cs.skip(hi));
    assert(cs =~= cs.take(hi) + cs.skip(hi));
    lemma_flat_add(cs.take(lo), cs.subrange(lo, hi));
    lemma_flat_add(cs.subrange(lo, hi), cs.skip(hi));
    lemma_flat_add(cs.take(hi), cs.skip(hi));
}

pub proof fn lemma_fit_add<V>(a: Seq<N<V>>, b: Seq<N<V>>, m: nat)
    requires
        all_fit(a, m),
        all_fit(b, m),
    ensures
        all_fit(a + b, m),
{
    assert forall|j: int| 0 <= j < (a + b).len() implies (#[trigger] (a + b)[j]).fits(m) by {
        if j < a.len() {
            assert((a + b)[j] == a[j]);
        } else {
            assert((a + b)[j] == b[j - a.len()]);
        }
    }
}

pub proof fn lemma_fit_sub<V>(cs: Seq<N<V>>, lo: int, hi: int, m: nat)
    requires
        all_fit(cs, m),
        0 <= lo <= hi <= cs.len(),
    ensures
        all_fit(cs.subrange(lo, hi), m),
{
    assert forall|j: int| 0 <= j < hi - lo implies (#[trigger] cs.subrange(lo, hi)[j]).fits(m) by {
        assert(cs.subrange(lo, hi)[j] == cs[lo + j]);
    }
}

/// A non-empty run of non-empty nodes holds an entry.
pub proof fn lemma_flat_nonempty<V>(cs: Seq<N<V>>)
    requires
        all_wf(cs),
        cs.len() > 0,
    ensures
        flat(cs).len() > 0,
{
    assert(cs.last() == cs[cs.len() - 1]);
}

/// The first keys of siblings increase.
pub proof fn lemma_first_keys<V>(cs: Seq<N<V>>, i: int, j: int)
    requires
        all_wf(cs),
        sorted(flat(cs)),
        0 <= i < j < cs.len(),
    ensures
        cs[i].entries()[0].0 < cs[j].entries()[0].0,
{
    lemma_route(cs, j);
    let pre = cs.take(j);
    lemma_flat_split(pre, i);
    assert(pre[i] == cs[i]);
    assert(cs[i].wf() && cs[i].entries().len() > 0);
    assert(cs[j].wf() && cs[j].entries().len() > 0);
    let a = flat(pre.take(i));
    assert(flat(pre)[a.len() as int] == cs[i].entries()[0]);
}

/// Orders a routing item against a key: an absent item sorts before every key, and an
/// absent key after every item.
pub fn cmp<V>(k1: Option<&Item<V>>, k2: Option<&u64>) -> (r: std::cmp::Ordering)
    ensures
        r == match (k1, k2) {
            (Some(a), Some(b)) => if a.0 < *b {
                std::cmp::Ordering::Less
            } else if a.0 == *b {
                std::cmp::Ordering::Equal
            } else {
                std::cmp::Ordering::Greater
            },
            (Some(_), None) => std::cmp::Ordering::Greater,
            (None, Some(_)) => std::cmp::Ordering::Less,
            (None, None) => std::cmp::Ordering::Equal,
        },
{
    match (k1, k2) {
        (Some(a), Some(b)) => {
            if a.0 < *b {
                std::cmp::Ordering::Less
            } else if a.0 == *b {
                std::cmp::Ordering::Equal
            } else {
                std::cmp::Ordering::Greater
            }
        },
        (Some(_), None) => std::cmp::Ordering::Greater,
        (None, Some(_)) => std::cmp::Ordering::Less,
        (None, None) => std::cmp::Ordering::Equal,
    }
}

/// The nodes that replace one node after a put, and the item the put displaced.
pub type PutResult<V> = (Vec<N<V>>, Option<Item<V>>);

/// The entries of a run of sibling nodes, in order.
pub open spec fn flat<V>(cs: Seq<N<V>>) -> Seq<Entry<V>>
    decreases cs,
{
    if cs.len() == 0 {
        Seq::empty()
    } else {
        flat(cs.drop_last()) + cs.last().entries()
    }
}

/// Every node of `cs` is well formed and holds an entry.
pub open spec fn all_wf<V>(cs: Seq<N<V>>) -> bool {
    forall|i: int| 0 <= i < cs.len() ==> (#[trigger] cs[i]).wf() && cs[i].entries().len() > 0
}

/// Every node of `cs` fits fan-out `m`.
pub open spec fn all_fit<V>(cs: Seq<N<V>>, m: nat) -> bool {
    forall|i: int| 0 <= i < cs.len() ==> (#[trigger] cs[i]).fits(m)
}

/// Every node of `cs` is balanced, with `l` levels.
pub open spec fn all_level<V>(cs: Seq<N<V>>, l: nat) -> bool {
    forall|i: int| 0 <= i < cs.len() ==> (#[trigger] cs[i]).balanced() && cs[i].level() == l
}

/// What a node that replaces `a` keeps of its shape: balanced, and as many levels as
/// `a` where it holds anything.
pub open spec fn same_level<V>(a: &BTreeType<V>, b: &BTreeType<V>) -> bool {
    &&& b.balanced()
    &&& b.entries().len() > 0 ==> b.level() == a.level()
}

pub proof fn lemma_level_add<V>(a: Seq<N<V>>, b: Seq<N<V>>, l: nat)
    requires
        all_level(a, l),
        all_level(b, l),
    ensures
        all_level(a + b, l),
{
    assert forall|j: int| 0 <= j < (a + b).len() implies (#[trigger] (a + b)[j]).balanced() && (a
        + b)[j].level() == l by {
        if j < a.len() {
            assert((a + b)[j] == a[j]);
        } else {
            assert((a + b)[j] == b[j - a.len()]);
        }
    }
}

pub proof fn lemma_level_sub<V>(cs: Seq<N<V>>, lo: int, hi: int, l: nat)
    requires
        all_level(cs, l),
        0 <= lo <= hi <= cs.len(),
    ensures
        all_level(cs.subrange(lo, hi), l),
{
    assert forall|j: int| 0 <= j < hi - lo implies (#[trigger] cs.subrange(lo, hi)[j]).balanced()
        && cs.subrange(lo, hi)[j].level() == l by {
        assert(cs.subrange(lo, hi)[j] == cs[lo + j]);
    }
}

/// `nonempty(n)` of a node that keeps the shape of one of `l` levels.
pub proof fn lemma_level_nonempty<V>(a: &BTreeType<V>, n: N<V>)
    requires
        same_level(a, &*n),
    ensures
        all_level(nonempty(n), a.level()),
{
}

/// A node over a non-empty run of siblings of `l` levels.
pub proof fn lemma_instance_level<V>(r: N<V>, cs: Seq<N<V>>, l: nat)
    requires
        *r matches BTreeType::Node(n) && n.children@ == cs,
        cs.len() > 0,
        all_level(cs, l),
    ensures
        r.balanced(),
        r.level() == l + 1,
{
    assert(cs[0].level() == l);
}

/// `b` fits every fan-out that `a` fits.
pub open spec fn no_wider<V>(a: &BTreeType<V>, b: &BTreeType<V>) -> bool {
    forall|m: nat| a.fits(m) ==> #[trigger] b.fits(m)
}

/// What a put into a node with entries `s` hands back: one or two non-empty
/// nodes of fan-out `m` that together hold `s` with `e` put in.
pub open spec fn put_result<V>(nodes: Seq<N<V>>, s: Seq<Entry<V>>, e: Entry<V>, m: nat) -> bool {
    &&& 1 <= nodes.len() <= 2
    &&& all_wf(nodes)
    &&& all_fit(nodes, m)
    &&& flat(nodes) == put_seq(s, e)
    &&& sorted(flat(nodes))
}

pub proof fn lemma_flat_one<V>(cs: Seq<N<V>>)
    requires
        cs.len() == 1,
    ensures
        flat(cs) == cs[0].entries(),
{
    assert(flat(cs.drop_last()) =~= Seq::<Entry<V>>::empty());
    assert(flat(cs) =~= cs[0].entries());
}

pub proof fn lemma_flat_two<V>(cs: Seq<N<V>>)
    requires
        cs.len() == 2,
    ensures
        flat(cs) == cs[0].entries() + cs[1].entries(),
{
    lemma_flat_one(cs.drop_last());
}

/// The entries of two runs of siblings side by side.
pub proof fn lemma_flat_add<V>(a: Seq<N<V>>, b: Seq<N<V>>)
    ensures
        flat(a + b) == flat(a) + flat(b),
    decreases b.len(),
{
    if b.len() == 0 {
        assert(a + b =~= a);
        assert(flat(a) + flat(b) =~= flat(a));
    } else {
        lemma_flat_add(a, b.drop_last());
        assert((a + b).drop_last() =~= a + b.drop_last());
        assert(flat(a) + flat(b) =~= flat(a) + flat(b.drop_last()) + b.last().entries());
    }
}

/// The entries of siblings split at child `i`.
pub proof fn lemma_flat_split<V>(cs: Seq<N<V>>, i: int)
    requires
        0 <= i < cs.len(),
    ensures
        flat(cs) == flat(cs.take(i)) + cs[i].entries() + flat(cs.skip(i + 1)),
{
    assert(cs =~= cs.take(i) + seq![cs[i]] + cs.skip(i + 1));
    lemma_flat_add(cs.take(i) + seq![cs[i]], cs.skip(i + 1));
    lemma_flat_add(cs.take(i), seq![cs[i]]);
    lemma_flat_one(seq![cs[i]]);
}

/// A copy of `v[lo..hi]`, sharing every element.
pub(crate) fn copy_range<T>(v: &Vec<Arc<T>>, lo: usize, hi: usize) -> (r: Vec<Arc<T>>)
    requires
        lo <= hi <= v@.len(),
    ensures
        r@ == v@.subrange(lo as int, hi as int),
{
    let mut r: Vec<Arc<T>> = Vec::with_capacity(hi - lo);
    let mut i: usize = lo;
    while i < hi
        invariant
            lo <= i <= hi <= v@.len(),
            r@ == v@.subrange(lo as int, i as int),
        decreases hi - i,
    {
        r.push(v[i].clone());
        assert(r@ =~= v@.subrange(lo as int, i + 1));
        i = i + 1;
    }
    r
}

} // verus!

verus! {

impl<V> BTreeType<V> {
    /// Well formed, and either a leaf or holding an entry: a node that operations descend.
    pub open spec fn usable(&self) -> bool {
        self.wf() && (self is Leaf || self.entries().len() > 0)
    }

    pub fn put(&self, m: usize, k: u64, v: V, ttl: Option<u64>) -> (r: PutResult<V>)
        requires
            self.usable(),
            m >= 2,
            self.fits(m as nat),
            self.balanced(),
            self.entries().len() < usize::MAX,
        ensures
            put_result(r.0@, self.entries(), (k, v, ttl), m as nat),
            all_level(r.0@, self.level()),
            displaced(self.entries(), k, r.1),
        decreases self,
    {
        match self {
            BTreeType::Leaf(leaf) => leaf.put(m, k, v, ttl),
            BTreeType::Node(node) => node.put(m, k, v, ttl),
        }
    }

    pub fn get(&self, k: &u64) -> (r: Option<&V>)
        requires
            self.usable(),
        ensures
            match r {
                Some(v) => self.entries().filter(at(*k)).len() > 0 && *v == self.entries().filter(
                    at(*k),
                )[0].1,
                None => self.entries().filter(at(*k)).len() == 0,
            },
        decreases self,
    {
        match self {
            BTreeType::Leaf(leaf) => leaf.get(k),
            BTreeType::Node(node) => node.get(k),
        }
    }

    pub fn remove(&self, k: &u64) -> (r: Option<(N<V>, Item<V>)>)
        requires
            self.usable(),
        ensures
            match r {
                Some((n, it)) => {
                    &&& n.wf()
                    &&& no_wider(self, &*n)
                    &&& (self.balanced() ==> same_level(self, &*n))
                    &&& n.entries() == self.entries().filter(other(*k))
                    &&& self.entries().filter(at(*k)) == seq![*it]
                },
                None => self.entries().filter(at(*k)).len() == 0,
            },
        decreases self,
    {
        match self {
            BTreeType::Leaf(leaf) => leaf.remove(k),
            BTreeType::Node(node) => node.remove(k),
        }
    }

    pub fn split_off(&self, k: &u64) -> (r: (N<V>, N<V>))
        requires
            self.usable(),
        ensures
            r.0.wf(),
            r.1.wf(),
            no_wider(self, &*r.0),
            no_wider(self, &*r.1),
            self.balanced() ==> same_level(self, &*r.0) && same_level(self, &*r.1),
            r.0.entries() == self.entries().filter(below(*k)),
            r.1.entries() == self.entries().filter(at_least(*k)),
        decreases self,
    {
        match self {
            BTreeType::Leaf(leaf) => leaf.split_off(k),
            BTreeType::Node(node) => node.split_off(k),
        }
    }

    pub fn expir(&self, now: u64) -> (r: Option<N<V>>)
        requires
            self.wf(),
        ensures
            match r {
                Some(n) => n.wf() && no_wider(self, &*n) && (self.balanced() ==> same_level(
                    self,
                    &*n,
                )) && n.entries() == self.entries().filter(live(now)),
                None => self.entries().filter(live(now)) == self.entries(),
            },
        decreases self,
    {
        match self {
            BTreeType::Leaf(leaf) => leaf.expir(now),
            BTreeType::Node(node) => node.expir(now),
        }
    }

    /// Applies sorted actions; hands back the nodes that replace this one.
    pub fn write(&self, m: usize, actions: Vec<(u64, Action<V>)>) -> (r: Vec<N<V>>)
        requires
            self.usable(),
            m >= 2,
            self.fits(m as nat),
            self.balanced(),
            acts_sorted(actions@),
            self.entries().len() + actions@.len() <= usize::MAX,
        ensures
            all_wf(r@),
            all_fit(r@, m as nat),
            all_level(r@, self.level()),
            flat(r@) == merge(self.entries(), actions@),
        decreases self,
    {
        match self {
            BTreeType::Leaf(leaf) => leaf.write(m, actions),
            BTreeType::Node(node) => node.write(m, actions),
        }
    }

    /// The last item, if there is one.
    pub fn max(&self) -> (r: Option<&Item<V>>)
        requires
            self.wf(),
        ensures
            match r {
                Some(it) => self.entries().len() > 0 && **it == self.entries().last(),
                None => self.entries().len() == 0,
            },
        decreases self,
    {
        match self {
            BTreeType::Leaf(l) => {
                if l.items.len() == 0 {
                    None
                } else {
                    Some(&l.items[l.items.len() - 1])
                }
            },
            BTreeType::Node(n) => {
                if n.children.len() == 0 {
                    None
                } else {
                    let last = n.children.len() - 1;
                    assert(n.children@[last as int].wf());
                    assert(n.children@[last as int].entries().len() > 0);
                    assert(n.children@.last() == n.children@[last as int]);
                    assert(decreases_to!(self => n.children@[last as int]));
                    n.children[last].max()
                }
            },
        }
    }

    /// The number of positions of this node: items of a leaf, children of an internal node.
    pub fn children_len(&self) -> (r: usize)
        ensures
            r == self.positions(),
    {
        match self {
            BTreeType::Leaf(leaf) => leaf.items.len(),
            BTreeType::Node(node) => node.children.len(),
        }
    }

    pub open spec fn positions(&self) -> nat {
        match self {
            BTreeType::Leaf(leaf) => leaf.items@.len(),
            BTreeType::Node(node) => node.children@.len(),
        }
    }

    /// Child `index` of an internal node.
    pub fn get_node_by_index(&self, index: usize) -> (r: N<V>)
        requires
            self is Node,
            index < self.positions(),
        ensures
            self matches BTreeType::Node(n) && r == n.children@[index as int],
    {
        match self {
            BTreeType::Node(node) => node.children[index].clone(),
            BTreeType::Leaf(_) => vstd::pervasive::unreached(),
        }
    }

    /// The first item, if there is one.
    pub fn key(&self) -> (r: Option<&Item<V>>)
        requires
            self.wf(),
        ensures
            match r {
                Some(it) => self.entries().len() > 0 && **it == self.entries()[0],
                None => self.entries().len() == 0,
            },
    {
        match self {
            BTreeType::Leaf(l) => {
                if l.items.len() == 0 {
                    None
                } else {
                    Some(&l.items[0])
                }
            },
            BTreeType::Node(n) => n.key.as_ref(),
        }
    }

    pub fn len(&self) -> (r: usize)
        requires
            self.wf(),
        ensures
            r == self.entries().len(),
    {
        match self {
            BTreeType::Leaf(leaf) => leaf.len(),
            BTreeType::Node(node) => node.len(),
        }
    }

    pub fn is_empty(&self) -> (r: bool)
        requires
            self.wf(),
        ensures
            r == (self.entries().len() == 0),
    {
        self.len() == 0
    }

    /// The least expiry among the entries.
    pub fn ttl(&self) -> (r: Option<u64>)
        requires
            self.wf(),
        ensures
            r == min_expiry(self.entries()),
    {
        match self {
            BTreeType::Leaf(leaf) => leaf.ttl(),
            BTreeType::Node(node) => node.ttl(),
        }
    }
}

} // verus!
