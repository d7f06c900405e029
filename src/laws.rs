//! Properties that relate the operations of a tree to the ordered map it stands for.

use vstd::prelude::*;

use crate::batch_write::Action;
use crate::btree::BTree;
use crate::cursor::{next_step, prev_step, Iterator};
use crate::model::{
    apply, at, at_least, below, lemma_filter_all, lemma_filter_and, lemma_filter_none, lemma_gap,
    lemma_map_keys, lemma_map_put, lists, live, other, put_seq, sorted, to_map,
};
use crate::tree::{Entry, Item};

verus! {

/// Keys at or below `k`.
pub open spec fn at_most<V>(k: u64) -> spec_fn(Entry<V>) -> bool {
    |e: Entry<V>| e.0 <= k
}

/// `s` lists the map `mp` in ascending key order, each entry once.
pub open spec fn ascending_listing<V>(s: Seq<Entry<V>>, mp: Map<u64, Entry<V>>) -> bool {
    &&& sorted(s)
    &&& forall|i: int| 0 <= i < s.len() ==> #[trigger] mp.contains_key(s[i].0) && mp[s[i].0] == s[i]
    &&& forall|k: u64| #[trigger] mp.contains_key(k) ==> exists|i: int| 0 <= i < s.len() && s[i].0 == k
    &&& mp.dom().finite()
    &&& mp.len() == s.len()
}

/// The entries of a sorted sequence, one per key of its map.
pub proof fn lemma_listing<V>(s: Seq<Entry<V>>)
    requires
        sorted(s),
    ensures
        ascending_listing(s, to_map(s)),
    decreases s.len(),
{
    let mp = to_map(s);
    assert forall|i: int| 0 <= i < s.len() implies #[trigger] mp.contains_key(s[i].0) && mp[s[i].0]
        == s[i] by {
        crate::model::lemma_sorted_pivot(s, i);
    }
    assert forall|k: u64| #[trigger] mp.contains_key(k) implies exists|i: int|
        0 <= i < s.len() && s[i].0 == k by {
        crate::model::lemma_filter_elem(s, at(k), 0);
    }
    if s.len() == 0 {
        assert(mp.dom() =~= Set::<u64>::empty());
    } else {
        let t = s.drop_last();
        assert(sorted(t));
        lemma_listing(t);
        let e = s.last();
        assert(put_seq(t, e) =~= s) by {
            lemma_filter_all(t, below(e.0));
            lemma_filter_none(t, crate::model::above(e.0));
        }
        lemma_map_put(t, e);
        assert(!to_map(t).contains_key(e.0)) by {
            lemma_filter_none(t, at(e.0));
        }
        assert(mp.dom() =~= to_map(t).dom().insert(e.0));
    }
}

/// A tree iterated forward, from a new cursor, hands out its map's entries in
/// ascending key order; iterated backward, the same in descending order. (A new
/// cursor's `next` and `prev` walk `entries()` from either end.)
pub proof fn law_ascending<V>(h: &BTree<V>)
    requires
        h.wf(),
    ensures
        ascending_listing(h.entries(), h@),
        h.entries().subrange(0, h.entries().len() as int) == h.entries(),
        h.entries().subrange(0, h.entries().len() as int).reverse() == h.entries().reverse(),
{
    lemma_listing(h.entries());
    assert(h.entries().subrange(0, h.entries().len() as int) =~= h.entries());
}

/// After `seek(x)` a cursor walks forward from the first key at or above `x`: the rest
/// of the entries from there are those of keys at or above `x`.
pub proof fn law_seek<V>(h: &BTree<V>, x: u64)
    requires
        h.wf(),
    ensures
        h.entries().subrange(h.entries().filter(below(x)).len() as int, h.entries().len() as int)
            == h.entries().filter(at_least(x)),
{
    let s = h.entries();
    let lo = s.filter(below(x)).len() as int;
    split_point(s, x);
    assert(s.subrange(lo, s.len() as int) =~= s.skip(lo));
}

/// After `seek_prev(x)` a cursor walks backward from the last key at or below `x`: the
/// entries up to there, in descending order, are those of keys at or below `x`.
pub proof fn law_seek_prev<V>(h: &BTree<V>, x: u64)
    requires
        h.wf(),
    ensures
        h.entries().subrange(
            0,
            (h.entries().filter(below(x)).len() + h.entries().filter(at(x)).len()) as int,
        ).reverse() == h.entries().filter(at_most(x)).reverse(),
{
    let s = h.entries();
    let (lo, hi) = split_point(s, x);
    lemma_gap(s, lo, hi, x);
    lemma_head(s, hi, x);
    assert(s.subrange(0, hi) =~= s.take(hi));
}

/// The entries before `hi`, all at or below `x`, when those from `hi` on lie above it.
proof fn lemma_head<V>(s: Seq<Entry<V>>, hi: int, x: u64)
    requires
        0 <= hi <= s.len(),
        forall|j: int| 0 <= j < hi ==> s[j].0 <= x,
        forall|j: int| hi <= j < s.len() ==> s[j].0 > x,
    ensures
        s.filter(at_most(x)) == s.take(hi),
{
    let t = s.take(hi);
    let u = s.skip(hi);
    assert(s =~= t + u);
    Seq::filter_distributes_over_add(t, u, at_most(x));
    lemma_filter_all(t, at_most(x));
    lemma_filter_none(u, at_most(x));
    assert(t + Seq::<Entry<V>>::empty() =~= t);
}

/// Where `x` falls in sorted `s`: the keys below `x` end at `lo`, those at `x` at `hi`.
proof fn split_point<V>(s: Seq<Entry<V>>, x: u64) -> (r: (int, int))
    requires
        sorted(s),
    ensures
        0 <= r.0 <= r.1 <= s.len(),
        r.1 <= r.0 + 1,
        forall|j: int| 0 <= j < r.0 ==> s[j].0 < x,
        forall|j: int| r.1 <= j < s.len() ==> s[j].0 > x,
        r.0 < r.1 ==> s[r.0].0 == x,
        r.0 == s.filter(below(x)).len(),
        s.filter(at_least(x)) == s.skip(r.0),
    decreases s.len(),
{
    if s.len() == 0 {
        crate::model::lemma_gap_rest(s, 0, 0, x);
        lemma_gap(s, 0, 0, x);
        (0, 0)
    } else {
        let t = s.drop_last();
        let (lo, hi) = split_point(t, x);
        let last = s.len() - 1;
        assert forall|j: int| 0 <= j < t.len() implies s[j] == t[j] && s[j].0 < s[last].0 by {}
        let r = if hi < t.len() {
            (lo, hi)
        } else if s.last().0 < x {
            (s.len() as int, s.len() as int)
        } else if s.last().0 == x {
            if lo < hi {
                (lo, hi)
            } else {
                (lo, lo + 1)
            }
        } else {
            (lo, hi)
        };
        if hi < t.len() {
            assert(s[hi].0 > x);
        }
        if lo < hi {
            assert(t[lo].0 == x);
        }
        assert forall|j: int| 0 <= j < r.0 implies s[j].0 < x by {
            if j < t.len() {
                assert(s[j] == t[j]);
            }
        }
        crate::model::lemma_gap_rest(s, r.0, r.1, x);
        lemma_gap(s, r.0, r.1, x);
        r
    }
}

/// Splitting at `x` parts the keys: those below `x` on the left, the rest on the right,
/// and no entry is lost or added.
pub proof fn law_split<V>(h: &BTree<V>, x: u64)
    requires
        h.wf(),
    ensures
        h.entries().filter(below(x)).len() + h.entries().filter(at_least(x)).len() == h.entries().len(),
        to_map(h.entries().filter(below(x))).dom() == h@.dom().filter(|k: u64| k < x),
        to_map(h.entries().filter(at_least(x))).dom() == h@.dom().filter(|k: u64| k >= x),
{
    let s = h.entries();
    let (lo, hi) = split_point(s, x);
    lemma_map_keys(s, below(x), |k: u64| k < x);
    lemma_map_keys(s, at_least(x), |k: u64| k >= x);
    assert(to_map(s.filter(below(x))).dom() =~= h@.dom().filter(|k: u64| k < x));
    assert(to_map(s.filter(at_least(x))).dom() =~= h@.dom().filter(|k: u64| k >= x));
}

/// One action applied to a map.
pub open spec fn step<V>(mp: Map<u64, Entry<V>>, a: (u64, Action<V>)) -> Map<u64, Entry<V>> {
    match a.1 {
        Action::Put(v, t) => mp.insert(a.0, (a.0, v, t)),
        Action::Delete => mp.remove(a.0),
    }
}

/// Actions applied to a map one by one, in order.
pub open spec fn apply_each<V>(mp: Map<u64, Entry<V>>, a: Seq<(u64, Action<V>)>) -> Map<
    u64,
    Entry<V>,
>
    decreases a.len(),
{
    if a.len() == 0 {
        mp
    } else {
        apply_each(step(mp, a[0]), a.skip(1))
    }
}

/// A batch does what its actions do when applied one by one in ascending key order.
pub proof fn law_batch<V>(mp: Map<u64, Entry<V>>, a: Seq<(u64, Action<V>)>, am: Map<u64, Action<V>>)
    requires
        lists(a, am),
    ensures
        apply(mp, am) == apply_each(mp, a),
    decreases a.len(),
{
    if a.len() == 0 {
        assert(am.dom() =~= Set::<u64>::empty()) by {
            assert forall|k: u64| !am.contains_key(k) by {
                if am.contains_key(k) {
                    let i = choose|i: int| 0 <= i < a.len() && a[i].0 == k;
                }
            }
        }
        assert(apply(mp, am) =~= mp);
    } else {
        let k0 = a[0].0;
        let rest = a.skip(1);
        let am1 = am.remove(k0);
        assert(am.contains_key(a[0].0));
        assert(lists(rest, am1)) by {
            assert forall|x: int, y: int| 0 <= x < y < rest.len() implies rest[x].0 < rest[y].0 by {
                assert(rest[x] == a[x + 1] && rest[y] == a[y + 1]);
            }
            assert forall|i: int| 0 <= i < rest.len() implies #[trigger] am1.contains_key(rest[i].0)
                && am1[rest[i].0] == rest[i].1 by {
                assert(rest[i] == a[i + 1]);
                assert(a[0].0 < a[i + 1].0);
                assert(am.contains_key(a[i + 1].0));
            }
            assert forall|k: u64| #[trigger] am1.contains_key(k) implies exists|i: int|
                0 <= i < rest.len() && rest[i].0 == k by {
                assert(am.contains_key(k));
                let i = choose|i: int| 0 <= i < a.len() && a[i].0 == k;
                assert(i > 0);
                assert(rest[i - 1] == a[i]);
            }
        }
        law_batch(step(mp, a[0]), rest, am1);
        assert(apply(mp, am) =~= apply(step(mp, a[0]), am1));
    }
}

/// A put is read back; a put then a remove leaves nothing; a remove of an absent key
/// leaves the tree's entries, and so its length, unchanged.
pub proof fn law_round_trip<V>(s: Seq<Entry<V>>, k: u64, v: V)
    requires
        sorted(s),
    ensures
        to_map(put_seq(s, (k, v, None))).contains_key(k),
        to_map(put_seq(s, (k, v, None)))[k].1 == v,
        !to_map(put_seq(s, (k, v, None)).filter(other(k))).contains_key(k),
        !to_map(s).contains_key(k) ==> s.filter(other(k)) == s,
{
    let p = put_seq(s, (k, v, None));
    lemma_map_put(s, (k, v, None));
    lemma_map_keys(p, other(k), |j: u64| j != k);
    if !to_map(s).contains_key(k) {
        assert forall|i: int| 0 <= i < s.len() implies other(k)(s[i]) by {
            if s[i].0 == k {
                s.lemma_filter_contains(at(k), i);
            }
        }
        lemma_filter_all(s, other(k));
    }
}

/// After an expiry pass at `now`, a key is present just where it was and its entry is
/// live at `now`, and it keeps that entry.
pub proof fn law_expiry<V>(h: &BTree<V>, now: u64)
    requires
        h.wf(),
    ensures
        forall|k: u64| #[trigger] to_map(h.entries().filter(live(now))).contains_key(k) <==> (
        h@.contains_key(k) && live(now)(h@[k])),
        forall|k: u64| #[trigger] to_map(h.entries().filter(live(now))).contains_key(k) ==> to_map(
            h.entries().filter(live(now)),
        )[k] == h@[k],
{
    let s = h.entries();
    assert forall|k: u64| #[trigger] s.filter(live(now)).filter(at(k)) == s.filter(at(k)).filter(
        live(now),
    ) by {
        let both = |e: Entry<V>| live(now)(e) && at(k)(e);
        lemma_filter_and(s, live(now), at(k), both);
        lemma_filter_and(s, at(k), live(now), both);
    }
    assert forall|k: u64| #[trigger] s.filter(at(k)).len() <= 1 by {
        let (lo, hi) = split_point(s, k);
        lemma_gap(s, lo, hi, k);
    }
    assert forall|k: u64| s.filter(at(k)).len() == 1 implies #[trigger] s.filter(at(k)).filter(
        live(now),
    ) == if live(now)(s.filter(at(k))[0]) {
        s.filter(at(k))
    } else {
        Seq::<Entry<V>>::empty()
    } by {
        let one = s.filter(at(k));
        assert(one =~= seq![one[0]]);
        if live(now)(one[0]) {
            lemma_filter_all(one, live(now));
        } else {
            lemma_filter_none(one, live(now));
        }
    }
    assert forall|k: u64| s.filter(at(k)).len() == 0 implies #[trigger] s.filter(at(k)).filter(
        live(now),
    ).len() == 0 by {
        s.filter(at(k)).lemma_filter_len(live(now));
    }
}

/// A call of `put` or `remove` on a tree, or the same call on an ordered map.
pub enum Op<V> {
    Put(u64, V),
    Remove(u64),
}

/// One call applied to an ordered map of entries.
pub open spec fn map_step<V>(mp: Map<u64, Entry<V>>, op: Op<V>) -> Map<u64, Entry<V>> {
    match op {
        Op::Put(k, v) => mp.insert(k, (k, v, None)),
        Op::Remove(k) => mp.remove(k),
    }
}

/// Calls applied to an ordered map one after another.
pub open spec fn replay<V>(mp: Map<u64, Entry<V>>, ops: Seq<Op<V>>) -> Map<u64, Entry<V>>
    decreases ops.len(),
{
    if ops.len() == 0 {
        mp
    } else {
        map_step(replay(mp, ops.drop_last()), ops.last())
    }
}

/// What a call of `put` or `remove` does to a tree, as their contracts state it.
pub open spec fn tree_step<V>(before: BTree<V>, op: Op<V>, after: BTree<V>) -> bool {
    &&& after.wf()
    &&& after@ == map_step(before@, op)
}

/// A tree taken through any sequence of puts and removes agrees, after every call, with
/// an ordered map that starts as the tree's map and is given the same calls: `get`
/// reads the map's value, `len` is the map's size, and its entries list the map in
/// ascending key order (what a cursor walks forward, and backward in reverse). A tree
/// from `new` starts as the empty map.
pub proof fn law_replay<V>(trees: Seq<BTree<V>>, ops: Seq<Op<V>>)
    requires
        trees.len() == ops.len() + 1,
        trees[0].wf(),
        forall|i: int| 0 <= i < ops.len() ==> tree_step(#[trigger] trees[i], ops[i], trees[i + 1]),
    ensures
        forall|i: int|
            0 <= i < trees.len() ==> {
                &&& (#[trigger] trees[i])@ == replay(trees[0]@, ops.take(i))
                &&& ascending_listing(trees[i].entries(), trees[i]@)
                &&& trees[i].entries().len() == trees[i]@.len()
            },
    decreases ops.len(),
{
    if ops.len() > 0 {
        let n = ops.len() - 1;
        let t0 = trees.drop_last();
        let o0 = ops.drop_last();
        assert forall|i: int| 0 <= i < o0.len() implies tree_step(#[trigger] t0[i], o0[i], t0[i + 1]) by {
            assert(tree_step(trees[i], ops[i], trees[i + 1]));
        }
        law_replay(t0, o0);
        assert forall|i: int| 0 <= i < trees.len() implies (#[trigger] trees[i])@ == replay(
            trees[0]@,
            ops.take(i),
        ) by {
            assert(t0[0] == trees[0]);
            if i < trees.len() - 1 {
                assert(t0[i] == trees[i]);
                assert(o0.take(i) =~= ops.take(i));
            } else {
                assert(t0[n] == trees[n]);
                assert(o0.take(n) =~= ops.take(n));
                assert(tree_step(trees[n], ops[n], trees[n + 1]));
                assert(ops.take(i).drop_last() =~= ops.take(n));
            }
        }
    } else {
        assert(ops.take(0) =~= Seq::<Op<V>>::empty());
    }
    assert forall|i: int| 0 <= i < trees.len() implies ascending_listing(
        (#[trigger] trees[i]).entries(),
        trees[i]@,
    ) && trees[i].entries().len() == trees[i]@.len() by {
        assert(trees[i].wf()) by {
            if i > 0 {
                assert(tree_step(trees[i - 1], ops[i - 1], trees[i]));
            }
        }
        lemma_listing(trees[i].entries());
    }
}

/// A clone taken of a tree is a snapshot: while the tree goes through any sequence of
/// puts and removes, the clone keeps the map the tree had, and the tree's map is that
/// map with the calls applied.
pub proof fn law_snapshot<V>(clone: BTree<V>, trees: Seq<BTree<V>>, ops: Seq<Op<V>>)
    requires
        trees.len() == ops.len() + 1,
        trees[0].wf(),
        clone == trees[0],
        forall|i: int| 0 <= i < ops.len() ==> tree_step(#[trigger] trees[i], ops[i], trees[i + 1]),
    ensures
        clone@ == trees[0]@,
        clone.entries() == trees[0].entries(),
        trees.last()@ == replay(clone@, ops),
{
    law_replay(trees, ops);
    assert(ops.take(ops.len() as int) =~= ops);
    assert(trees.last() == trees[ops.len() as int]);
}

/// A new cursor stepped by `next` again and again hands out every entry of its tree
/// once, in ascending key order, and then nothing.
pub proof fn law_forward_walk<V>(its: Seq<Iterator<V>>, rs: Seq<Option<Item<V>>>)
    requires
        its.len() == rs.len() + 1,
        its[0].valid(),
        !its[0].done(),
        its[0].next_index() == 0,
        forall|i: int| 0 <= i < rs.len() ==> next_step(#[trigger] its[i], rs[i], its[i + 1]),
    ensures
        ascending_listing(its[0].entries(), its[0].inner@),
        forall|i: int|
            0 <= i < rs.len() && i < its[0].entries().len() ==> ((#[trigger] rs[i]) matches Some(it)
                && *it == its[0].entries()[i]),
        forall|i: int| 0 <= i < rs.len() && i >= its[0].entries().len() ==> (#[trigger] rs[i]) is None,
{
    lemma_listing(its[0].entries());
    let n = its[0].entries().len() as int;
    assert forall|i: int| 0 <= i < rs.len() && i < n implies ((#[trigger] rs[i]) matches Some(it) && *it
        == its[0].entries()[i]) by {
        walk_forward(its, rs, i);
        assert(next_step(its[i], rs[i], its[i + 1]));
    }
    assert forall|i: int| 0 <= i < rs.len() && i >= n implies (#[trigger] rs[i]) is None by {
        walk_forward(its, rs, i);
        assert(next_step(its[i], rs[i], its[i + 1]));
    }
}

/// Where a forward walk stands after `j` calls.
proof fn walk_forward<V>(its: Seq<Iterator<V>>, rs: Seq<Option<Item<V>>>, j: int)
    requires
        its.len() == rs.len() + 1,
        its[0].valid(),
        !its[0].done(),
        its[0].next_index() == 0,
        forall|i: int| 0 <= i < rs.len() ==> next_step(#[trigger] its[i], rs[i], its[i + 1]),
        0 <= j <= rs.len(),
    ensures
        its[j].valid(),
        its[j].inner == its[0].inner,
        j <= its[0].entries().len() ==> !its[j].done() && its[j].next_index() == j,
        j > its[0].entries().len() ==> its[j].done(),
    decreases j,
{
    if j > 0 {
        walk_forward(its, rs, j - 1);
        assert(next_step(its[j - 1], rs[j - 1], its[j]));
    }
}

/// A new cursor stepped by `prev` again and again hands out every entry of its tree
/// once, in descending key order, and then nothing.
pub proof fn law_backward_walk<V>(its: Seq<Iterator<V>>, rs: Seq<Option<Item<V>>>)
    requires
        its.len() == rs.len() + 1,
        its[0].valid(),
        !its[0].done(),
        its[0].prev_index() == its[0].entries().len() - 1,
        forall|i: int| 0 <= i < rs.len() ==> prev_step(#[trigger] its[i], rs[i], its[i + 1]),
    ensures
        ascending_listing(its[0].entries(), its[0].inner@),
        forall|i: int|
            0 <= i < rs.len() && i < its[0].entries().len() ==> ((#[trigger] rs[i]) matches Some(it)
                && *it == its[0].entries()[its[0].entries().len() - 1 - i]),
        forall|i: int| 0 <= i < rs.len() && i >= its[0].entries().len() ==> (#[trigger] rs[i]) is None,
{
    lemma_listing(its[0].entries());
    let n = its[0].entries().len() as int;
    assert forall|i: int| 0 <= i < rs.len() && i < n implies ((#[trigger] rs[i]) matches Some(it) && *it
        == its[0].entries()[n - 1 - i]) by {
        walk_backward(its, rs, i);
        assert(prev_step(its[i], rs[i], its[i + 1]));
    }
    assert forall|i: int| 0 <= i < rs.len() && i >= n implies (#[trigger] rs[i]) is None by {
        walk_backward(its, rs, i);
        assert(prev_step(its[i], rs[i], its[i + 1]));
    }
}

/// Where a backward walk stands after `j` calls.
proof fn walk_backward<V>(its: Seq<Iterator<V>>, rs: Seq<Option<Item<V>>>, j: int)
    requires
        its.len() == rs.len() + 1,
        its[0].valid(),
        !its[0].done(),
        its[0].prev_index() == its[0].entries().len() - 1,
        forall|i: int| 0 <= i < rs.len() ==> prev_step(#[trigger] its[i], rs[i], its[i + 1]),
        0 <= j <= rs.len(),
    ensures
        its[j].valid(),
        its[j].inner == its[0].inner,
        j <= its[0].entries().len() ==> !its[j].done() && its[j].prev_index() == its[0].entries().len() - 1 - j,
        j > its[0].entries().len() ==> its[j].done(),
    decreases j,
{
    if j > 0 {
        walk_backward(its, rs, j - 1);
        assert(prev_step(its[j - 1], rs[j - 1], its[j]));
    }
}

} // verus!
