//! Leaves: sorted runs of shared items.

use std::sync::Arc;
use vstd::prelude::*;

use crate::batch_write::Action;
use crate::model::{
    acts_sorted, at, at_least, below, deref_all, displaced, lemma_filter_full, lemma_filter_sorted,
    lemma_gap, lemma_gap_rest, lemma_halves, lemma_merge_facts, lemma_put_left, lemma_put_pivot,
    lemma_put_right, lemma_sorted_pivot, lemma_sorted_sub, live, merge, min_expiry, other, outcome,
    put_seq, sorted,
};
use crate::tree::{
    lemma_flat_nonempty,    all_level, same_level,    all_fit, no_wider,
    all_wf, copy_range, flat, lemma_flat_one, lemma_flat_two, put_result, BTreeType, Entry, Item, N,
    PutResult,
};

verus! {

pub struct Leaf<V> {
    pub items: Vec<Item<V>>,
}

impl<V> Leaf<V> {
    pub open spec fn entries(self) -> Seq<Entry<V>> {
        deref_all(self.items@)
    }

    pub fn instance(items: Vec<Item<V>>) -> (r: N<V>)
        ensures
            *r == BTreeType::Leaf(Leaf { items }),
            r.entries() == deref_all(items@),
    {
        Arc::new(BTreeType::Leaf(Leaf { items }))
    }

    /// Where `k` stands among the items: `Ok` with its index, or `Err` with the
    /// index at which it would be inserted.
    pub fn search_index(&self, k: &u64) -> (r: Result<usize, usize>)
        requires
            sorted(self.entries()),
        ensures
            match r {
                Ok(i) => i < self.entries().len() && self.entries()[i as int].0 == *k,
                Err(i) => i <= self.entries().len() && (forall|j: int|
                    0 <= j < i ==> self.entries()[j].0 < *k) && (forall|j: int|
                    i <= j < self.entries().len() ==> self.entries()[j].0 > *k),
            },
    {
        search_items(&self.items, *k)
    }

    pub fn get(&self, k: &u64) -> (r: Option<&V>)
        requires
            sorted(self.entries()),
        ensures
            match r {
                Some(v) => self.entries().filter(at(*k)).len() > 0 && *v == self.entries().filter(
                    at(*k),
                )[0].1,
                None => self.entries().filter(at(*k)).len() == 0,
            },
    {
        match self.search_index(k) {
            Ok(i) => {
                proof {
                    lemma_sorted_pivot(self.entries(), i as int);
                }
                Some(&self.items[i].1)
            },
            Err(i) => {
                proof {
                    lemma_gap(self.entries(), i as int, i as int, *k);
                }
                None
            },
        }
    }

    /// Puts `item` among sorted items by its key, and hands back the item it replaced.
    fn sort_insert(items: &mut Vec<Item<V>>, item: Item<V>) -> (r: Option<Item<V>>)
        requires
            sorted(deref_all(old(items)@)),
        ensures
            deref_all(final(items)@) == put_seq(deref_all(old(items)@), *item),
            sorted(deref_all(final(items)@)),
            displaced(deref_all(old(items)@), item.0, r),
            old(items)@.len() <= final(items)@.len() <= old(items)@.len() + 1,
    {
        let ghost s = deref_all(items@);
        let k = item.0;
        match search_items(items, k) {
            Ok(i) => {
                proof {
                    lemma_sorted_pivot(s, i as int);
                }
                let old = items[i].clone();
                items.set(i, item);
                proof {
                    assert(deref_all(items@) =~= s.take(i as int) + seq![*item] + s.skip(i + 1));
                    assert forall|a: int, b: int|
                        0 <= a < b < deref_all(items@).len() implies deref_all(items@)[a].0
                        < deref_all(items@)[b].0 by {
                        assert(deref_all(items@)[a].0 == s[a].0);
                        assert(deref_all(items@)[b].0 == s[b].0);
                    }
                }
                Some(old)
            },
            Err(i) => {
                proof {
                    lemma_gap(s, i as int, i as int, k);
                }
                items.insert(i, item);
                proof {
                    let t = deref_all(items@);
                    assert(t =~= s.take(i as int) + seq![*item] + s.skip(i as int));
                    assert forall|a: int, b: int| 0 <= a < b < t.len() implies t[a].0 < t[b].0 by {
                        if a < i {
                            assert(t[a] == s[a]);
                        } else if a > i {
                            assert(t[a] == s[a - 1]);
                        }
                        if b < i {
                            assert(t[b] == s[b]);
                        } else if b > i {
                            assert(t[b] == s[b - 1]);
                        }
                    }
                }
                None
            },
        }
    }

    /// Puts `(k, v, ttl)`; a full leaf splits in two at its middle.
    pub fn put(&self, m: usize, k: u64, v: V, ttl: Option<u64>) -> (r: PutResult<V>)
        requires
            m >= 2,
            sorted(self.entries()),
            self.items@.len() <= m,
        ensures
            put_result(r.0@, self.entries(), (k, v, ttl), m as nat),
            all_level(r.0@, 0),
            displaced(self.entries(), k, r.1),
            forall|i: int| 0 <= i < r.0@.len() ==> *(#[trigger] r.0@[i]) is Leaf,
            self.items@.len() < m ==> r.0@.len() == 1,
            self.items@.len() == m ==> {
                &&& r.0@.len() == 2
                &&& r.0@[0].positions() == m / 2 || r.0@[0].positions() == m / 2 + 1
                &&& r.0@[1].positions() == m - m / 2 || r.0@[1].positions() == m - m / 2 + 1
            },
    {
        let ghost e: Entry<V> = (k, v, ttl);
        let item = Arc::new((k, v, ttl));
        let ghost s = self.entries();
        let n = self.items.len();
        if n < m {
            let mut items = copy_range(&self.items, 0, n);
            assert(items@ =~= self.items@);
            let old = Self::sort_insert(&mut items, item);
            let leaf = Self::instance(items);
            let mut nodes: Vec<N<V>> = Vec::new();
            nodes.push(leaf);
            proof {
                lemma_flat_one(nodes@);
                assert(leaf.entries().len() > 0);
                assert(nodes@[0].fits(m as nat));
                assert(nodes@[0].balanced() && nodes@[0].level() == 0);
            }
            return (nodes, old);
        }
        let mid = m / 2;
        let mut left = copy_range(&self.items, 0, mid);
        let mut right = copy_range(&self.items, mid, n);
        let km = self.items[mid].0;
        let ghost ls = deref_all(left@);
        let ghost rs = deref_all(right@);
        proof {
            lemma_halves(s, mid as int);
            assert(ls =~= s.take(mid as int));
            assert(rs =~= s.skip(mid as int));
        }
        let old;
        if k < km {
            old = Self::sort_insert(&mut left, item);
            proof {
                lemma_put_left(ls, rs, e, km);
            }
        } else if k == km {
            old = Some(right[0].clone());
            right.set(0, item);
            proof {
                assert(deref_all(right@) =~= rs.update(0, e));
                lemma_put_pivot(s, mid as int, e);
            }
        } else {
            old = Self::sort_insert(&mut right, item);
            proof {
                lemma_put_right(ls, rs, e, km);
            }
        }
        let l = Self::instance(left);
        let r = Self::instance(right);
        let mut nodes: Vec<N<V>> = Vec::new();
        nodes.push(l);
        nodes.push(r);
        proof {
            lemma_flat_two(nodes@);
            assert(nodes@[0].fits(m as nat));
            assert(nodes@[1].fits(m as nat));
            assert(nodes@[0].balanced() && nodes@[0].level() == 0);
            assert(nodes@[1].balanced() && nodes@[1].level() == 0);
        }
        (nodes, old)
    }

    /// Removes the item of key `k`, if there is one.
    pub fn remove(&self, k: &u64) -> (r: Option<(N<V>, Item<V>)>)
        requires
            sorted(self.entries()),
        ensures
            match r {
                Some((n, it)) => {
                    &&& n.wf()
                    &&& no_wider(&BTreeType::Leaf(*self), &*n)
                    &&& same_level(&BTreeType::Leaf(*self), &*n)
                    &&& *n is Leaf
                    &&& n.entries() == self.entries().filter(other(*k))
                    &&& self.entries().filter(at(*k)) == seq![*it]
                },
                None => self.entries().filter(at(*k)).len() == 0,
            },
    {
        let ghost s = self.entries();
        match self.search_index(k) {
            Ok(i) => {
                let n = self.items.len();
                let mut items = copy_range(&self.items, 0, i);
                let rest = copy_range(&self.items, i + 1, n);
                let ghost a = items@;
                let mut j: usize = 0;
                while j < rest.len()
                    invariant
                        items@ == a + rest@.take(j as int),
                        j <= rest@.len(),
                    decreases rest@.len() - j,
                {
                    items.push(rest[j].clone());
                    assert(items@ =~= a + rest@.take(j + 1));
                    j = j + 1;
                }
                proof {
                    lemma_gap(s, i as int, i + 1, *k);
                    lemma_gap_rest(s, i as int, i + 1, *k);
                    assert(deref_all(items@) =~= s.take(i as int) + s.skip(i + 1));
                    assert(s.subrange(i as int, i + 1) =~= seq![*self.items@[i as int]]);
                    lemma_filter_sorted(s, other(*k));
                }
                let n = Self::instance(items);
                assert(n.fits(self.items@.len() as nat));
                Some((n, self.items[i].clone()))
            },
            Err(i) => {
                proof {
                    lemma_gap(s, i as int, i as int, *k);
                }
                None
            },
        }
    }

    /// Splits at `k`: the items below `k`, and those from `k` on.
    pub fn split_off(&self, k: &u64) -> (r: (N<V>, N<V>))
        requires
            sorted(self.entries()),
        ensures
            r.0.wf(),
            r.1.wf(),
            no_wider(&BTreeType::Leaf(*self), &*r.0),
            no_wider(&BTreeType::Leaf(*self), &*r.1),
            same_level(&BTreeType::Leaf(*self), &*r.0),
            same_level(&BTreeType::Leaf(*self), &*r.1),
            *r.0 is Leaf,
            *r.1 is Leaf,
            r.0.entries() == self.entries().filter(below(*k)),
            r.1.entries() == self.entries().filter(at_least(*k)),
    {
        let ghost s = self.entries();
        let index = match self.search_index(k) {
            Ok(i) => i,
            Err(i) => i,
        };
        proof {
            if index < s.len() && s[index as int].0 == *k {
                lemma_gap(s, index as int, index + 1, *k);
                lemma_gap_rest(s, index as int, index + 1, *k);
            } else {
                lemma_gap(s, index as int, index as int, *k);
                lemma_gap_rest(s, index as int, index as int, *k);
            }
            lemma_filter_sorted(s, below(*k));
            lemma_filter_sorted(s, at_least(*k));
        }
        let n = self.items.len();
        let left = copy_range(&self.items, 0, index);
        let right = copy_range(&self.items, index, n);
        assert(deref_all(left@) =~= s.take(index as int));
        assert(deref_all(right@) =~= s.skip(index as int));
        (Self::instance(left), Self::instance(right))
    }

    /// The items that are live at `now`, or `None` where all of them are.
    pub fn expir(&self, now: u64) -> (r: Option<N<V>>)
        requires
            sorted(self.entries()),
        ensures
            match r {
                Some(n) => n.wf() && no_wider(&BTreeType::Leaf(*self), &*n) && same_level(
                    &BTreeType::Leaf(*self),
                    &*n,
                ) && *n is Leaf && n.entries() == self.entries().filter(live(now)),
                None => self.entries().filter(live(now)) == self.entries(),
            },
            r is None <==> self.entries().filter(live(now)) == self.entries(),
    {
        let ghost s = self.entries();
        let mut items: Vec<Item<V>> = Vec::new();
        let mut i: usize = 0;
        while i < self.items.len()
            invariant
                s == self.entries(),
                i <= s.len(),
                deref_all(items@) == s.take(i as int).filter(live(now)),
                items@.len() <= i,
            decreases s.len() - i,
        {
            let it = &self.items[i];
            let keep = match it.2 {
                Some(t) => t >= now,
                None => true,
            };
            proof {
                reveal(Seq::filter);
                assert(s.take(i + 1).drop_last() =~= s.take(i as int));
            }
            if keep {
                items.push(it.clone());
                assert(deref_all(items@) =~= s.take(i + 1).filter(live(now)));
            } else {
                assert(deref_all(items@) =~= s.take(i + 1).filter(live(now)));
            }
            i = i + 1;
        }
        assert(s.take(i as int) =~= s);
        proof {
            lemma_filter_sorted(s, live(now));
        }
        if items.len() == self.items.len() {
            proof {
                lemma_filter_full(s, live(now));
            }
            None
        } else {
            assert(s.filter(live(now)).len() != s.len());
            Some(Self::instance(items))
        }
    }

    /// The least expiry among the items.
    pub fn ttl(&self) -> (r: Option<u64>)
        ensures
            r == min_expiry(self.entries()),
    {
        let ghost s = self.entries();
        let mut best: Option<u64> = None;
        let mut i: usize = 0;
        while i < self.items.len()
            invariant
                s == self.entries(),
                i <= s.len(),
                best == min_expiry(s.take(i as int)),
            decreases s.len() - i,
        {
            assert(s.take(i + 1).drop_last() =~= s.take(i as int));
            best = match (best, self.items[i].2) {
                (Some(x), Some(y)) => Some(if x <= y { x } else { y }),
                (Some(x), None) => Some(x),
                (None, y) => y,
            };
            i = i + 1;
        }
        assert(s.take(i as int) =~= s);
        best
    }

    /// Applies sorted actions, then cuts the merged items into leaves of at most `m`.
    pub fn write(&self, m: usize, bw: Vec<(u64, Action<V>)>) -> (r: Vec<N<V>>)
        requires
            m >= 1,
            sorted(self.entries()),
            acts_sorted(bw@),
        ensures
            all_wf(r@),
            all_fit(r@, m as nat),
            all_level(r@, 0),
            flat(r@) == merge(self.entries(), bw@),
            forall|i: int|
                0 <= i < r@.len() ==> *(#[trigger] r@[i]) is Leaf && 1 <= r@[i].positions() <= m,
            forall|i: int| 0 <= i < r@.len() - 1 ==> (#[trigger] r@[i]).positions() == m,
            r@.len() == 0 <==> merge(self.entries(), bw@).len() == 0,
    {
        let items = Self::merge_sort_arr(&self.items, bw);
        let ghost s = deref_all(items@);
        let n = items.len();
        let mut out: Vec<N<V>> = Vec::new();
        let mut c: usize = 0;
        while c < n
            invariant
                s == deref_all(items@),
                sorted(s),
                n == s.len(),
                m >= 1,
                c <= n,
                all_wf(out@),
                all_fit(out@, m as nat),
                all_level(out@, 0),
                flat(out@) == s.take(c as int),
                forall|i: int|
                    0 <= i < out@.len() ==> *(#[trigger] out@[i]) is Leaf && 1 <= out@[i].positions()
                        <= m,
                forall|i: int|
                    0 <= i < out@.len() && (i < out@.len() - 1 || c < n) ==> (
                    #[trigger] out@[i]).positions() == m,
                c > 0 ==> out@.len() > 0,
                out@.len() <= c,
            decreases n - c,
        {
            let hi = if n - c <= m {
                n
            } else {
                c + m
            };
            let chunk = copy_range(&items, c, hi);
            proof {
                lemma_sorted_sub(s, c as int, hi as int);
                assert(deref_all(chunk@) =~= s.subrange(c as int, hi as int));
            }
            let leaf = Self::instance(chunk);
            let ghost prev = out@;
            out.push(leaf);
            proof {
                assert(out@.drop_last() =~= prev);
                assert(s.take(hi as int) =~= s.take(c as int) + s.subrange(c as int, hi as int));
                assert forall|j: int| 0 <= j < out@.len() implies (#[trigger] out@[j]).wf()
                    && out@[j].entries().len() > 0 && out@[j].fits(m as nat) && out@[j].balanced()
                    && out@[j].level() == 0 by {
                    if j < prev.len() {
                        assert(out@[j] == prev[j]);
                    }
                }
                assert forall|j: int| 0 <= j < out@.len() && (j < out@.len() - 1 || hi < n) implies (
                #[trigger] out@[j]).positions() == m by {
                    if j < prev.len() {
                        assert(out@[j] == prev[j]);
                    }
                }
                assert forall|j: int| 0 <= j < out@.len() implies *(#[trigger] out@[j]) is Leaf
                    && 1 <= out@[j].positions() <= m by {
                    if j < prev.len() {
                        assert(out@[j] == prev[j]);
                    }
                }
            }
            c = hi;
        }
        assert(s.take(n as int) =~= s);
        proof {
            if out@.len() > 0 {
                lemma_flat_nonempty(out@);
            }
        }
        out
    }

    /// Merges sorted items with sorted actions, two pointers walking both.
    fn merge_sort_arr(items: &Vec<Item<V>>, bw: Vec<(u64, Action<V>)>) -> (r: Vec<Item<V>>)
        requires
            sorted(deref_all(items@)),
            acts_sorted(bw@),
        ensures
            deref_all(r@) == merge(deref_all(items@), bw@),
            sorted(deref_all(r@)),
    {
        let ghost s = deref_all(items@);
        let ghost a = bw@;
        let n = bw.len();
        let mut bw = bw;
        let mut stack: Vec<(u64, Action<V>)> = Vec::new();
        while bw.len() > 0
            invariant
                n == a.len(),
                stack@.len() + bw@.len() == n,
                bw@ == a.take(bw@.len() as int),
                forall|t: int| 0 <= t < stack@.len() ==> stack@[t] == a[n - 1 - t],
            decreases bw@.len(),
        {
            let ghost before = bw@;
            match bw.pop() {
                Some(x) => {
                    stack.push(x);
                    assert(bw@ =~= a.take(bw@.len() as int));
                },
                None => {},
            }
        }
        let mut result: Vec<Item<V>> = Vec::new();
        let mut i: usize = 0;
        proof {
            assert(s.skip(0) =~= s);
            assert(a.skip(0) =~= a);
            assert(deref_all(result@) + merge(s, a) =~= merge(s, a));
        }
        while i < items.len() || stack.len() > 0
            invariant
                s == deref_all(items@),
                n == a.len(),
                i <= s.len(),
                stack@.len() <= n,
                forall|t: int| 0 <= t < stack@.len() ==> stack@[t] == a[n - 1 - t],
                deref_all(result@) + merge(s.skip(i as int), a.skip(n - stack@.len())) == merge(s, a),
            decreases s.len() - i + stack@.len(),
        {
            let ghost j = n - stack@.len();
            let ghost rs = s.skip(i as int);
            let ghost ra = a.skip(j);
            let ghost prev = deref_all(result@);
            proof {
                if i < s.len() {
                    assert(rs.skip(1) =~= s.skip(i + 1));
                }
                if j < n {
                    assert(ra.skip(1) =~= a.skip(j + 1));
                }
            }
            if stack.len() == 0 {
                assert(ra.len() == 0);
                result.push(items[i].clone());
                proof {
                    assert(merge(rs, ra) == rs);
                    assert(merge(rs.skip(1), ra) == rs.skip(1));
                    assert(rs =~= seq![rs[0]] + rs.skip(1));
                    assert(deref_all(result@) =~= prev + seq![rs[0]]);
                }
                i = i + 1;
            } else {
                let top = stack.len() - 1;
                assert(stack@[top as int] == ra[0]);
                let take_action = if i == items.len() {
                    true
                } else {
                    items[i].0 >= stack[top].0
                };
                if take_action {
                    let same = i < items.len() && items[i].0 == stack[top].0;
                    let (k, act) = match stack.pop() {
                        Some(x) => x,
                        None => vstd::pervasive::unreached(),
                    };
                    match act {
                        Action::Put(v, t) => {
                            result.push(std::sync::Arc::new((k, v, t)));
                        },
                        Action::Delete => {},
                    }
                    proof {
                        assert(deref_all(result@) =~= prev + outcome(ra[0]));
                    }
                    if same {
                        i = i + 1;
                    }
                } else {
                    result.push(items[i].clone());
                    proof {
                        assert(deref_all(result@) =~= prev + seq![rs[0]]);
                    }
                    i = i + 1;
                }
            }
        }
        proof {
            assert(s.skip(i as int).len() == 0);
            assert(a.skip(n as int).len() == 0);
            lemma_merge_facts(s, a, 0);
        }
        result
    }

    pub fn len(&self) -> (r: usize)
        ensures
            r == self.entries().len(),
    {
        self.items.len()
    }
}

/// Binary search of `k` among sorted items.
pub(crate) fn search_items<V>(items: &Vec<Item<V>>, k: u64) -> (r: Result<usize, usize>)
    requires
        sorted(deref_all(items@)),
    ensures
        match r {
            Ok(i) => i < items@.len() && items@[i as int].0 == k,
            Err(i) => i <= items@.len() && (forall|j: int| 0 <= j < i ==> items@[j].0 < k) && (
            forall|j: int| i <= j < items@.len() ==> items@[j].0 > k),
        },
{
    let ghost s = deref_all(items@);
    let mut lo: usize = 0;
    let mut hi: usize = items.len();
    while lo < hi
        invariant
            s == deref_all(items@),
            sorted(s),
            lo <= hi <= items@.len(),
            forall|j: int| 0 <= j < lo ==> items@[j].0 < k,
            forall|j: int| hi <= j < items@.len() ==> items@[j].0 > k,
        decreases hi - lo,
    {
        let mid = lo + (hi - lo) / 2;
        let km = items[mid].0;
        assert(s[mid as int].0 == km);
        if km == k {
            return Ok(mid);
        } else if km < k {
            assert forall|j: int| 0 <= j < mid + 1 implies items@[j].0 < k by {
                assert(s[j].0 == items@[j].0);
            }
            lo = mid + 1;
        } else {
            assert forall|j: int| mid <= j < items@.len() implies items@[j].0 > k by {
                assert(s[j].0 == items@[j].0);
            }
            hi = mid;
        }
    }
    Err(lo)
}

} // verus!
