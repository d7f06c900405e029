//! Sequences of entries: ordering, the filters that the tree operations are
//! stated with, and the map that a sorted sequence stands for.

use vstd::prelude::*;

use crate::batch_write::Action;
use crate::tree::{Entry, Item};

verus! {


/// Keys strictly increase along the sequence.
pub open spec fn sorted<V>(s: Seq<Entry<V>>) -> bool {
    forall|i: int, j: int| 0 <= i < j < s.len() ==> s[i].0 < s[j].0
}

pub open spec fn below<V>(k: u64) -> spec_fn(Entry<V>) -> bool {
    |e: Entry<V>| e.0 < k
}

pub open spec fn above<V>(k: u64) -> spec_fn(Entry<V>) -> bool {
    |e: Entry<V>| e.0 > k
}

pub open spec fn at_least<V>(k: u64) -> spec_fn(Entry<V>) -> bool {
    |e: Entry<V>| e.0 >= k
}

pub open spec fn at<V>(k: u64) -> spec_fn(Entry<V>) -> bool {
    |e: Entry<V>| e.0 == k
}

pub open spec fn other<V>(k: u64) -> spec_fn(Entry<V>) -> bool {
    |e: Entry<V>| e.0 != k
}

/// An entry is live at `now` unless it carries an expiry strictly before `now`.
pub open spec fn live<V>(now: u64) -> spec_fn(Entry<V>) -> bool {
    |e: Entry<V>|
        match e.2 {
            Some(t) => t >= now,
            None => true,
        }
}

/// The sorted sequence `s` with `e` put in by its key, replacing an entry of that key.
pub open spec fn put_seq<V>(s: Seq<Entry<V>>, e: Entry<V>) -> Seq<Entry<V>> {
    s.filter(below(e.0)) + seq![e] + s.filter(above(e.0))
}

/// The map from key to entry that a sorted sequence stands for.
pub open spec fn to_map<V>(s: Seq<Entry<V>>) -> Map<u64, Entry<V>> {
    Map::new(|k: u64| s.filter(at(k)).len() > 0, |k: u64| s.filter(at(k))[0])
}

/// Action keys strictly increase along the sequence.
pub open spec fn acts_sorted<V>(a: Seq<(u64, Action<V>)>) -> bool {
    forall|i: int, j: int| 0 <= i < j < a.len() ==> a[i].0 < a[j].0
}

/// The entry an action leaves for its key: the put one, or none.
pub open spec fn outcome<V>(a: (u64, Action<V>)) -> Seq<Entry<V>> {
    match a.1 {
        Action::Put(v, t) => seq![(a.0, v, t)],
        Action::Delete => Seq::empty(),
    }
}

/// The sorted entries `s` with the sorted actions `a` applied: an action on a key
/// replaces or drops its entry, and a put of a new key adds one.
pub open spec fn merge<V>(s: Seq<Entry<V>>, a: Seq<(u64, Action<V>)>) -> Seq<Entry<V>>
    decreases s.len() + a.len(),
{
    if a.len() == 0 {
        s
    } else if s.len() == 0 {
        outcome(a[0]) + merge(s, a.skip(1))
    } else if s[0].0 < a[0].0 {
        seq![s[0]] + merge(s.skip(1), a)
    } else if s[0].0 == a[0].0 {
        outcome(a[0]) + merge(s.skip(1), a.skip(1))
    } else {
        outcome(a[0]) + merge(s, a.skip(1))
    }
}

/// The first action on key `j`.
pub open spec fn find_act<V>(a: Seq<(u64, Action<V>)>, j: u64) -> Option<Action<V>>
    decreases a.len(),
{
    if a.len() == 0 {
        None
    } else if a[0].0 == j {
        Some(a[0].1)
    } else {
        find_act(a.skip(1), j)
    }
}

/// The map `mp` with the actions of `am` applied: a put sets its key, a delete drops it.
pub open spec fn apply<V>(mp: Map<u64, Entry<V>>, am: Map<u64, Action<V>>) -> Map<u64, Entry<V>> {
    Map::new(
        |j: u64|
            if am.contains_key(j) {
                am[j] is Put
            } else {
                mp.contains_key(j)
            },
        |j: u64|
            if am.contains_key(j) {
                match am[j] {
                    Action::Put(v, t) => (j, v, t),
                    Action::Delete => mp[j],
                }
            } else {
                mp[j]
            },
    )
}

/// `a` lists the actions of `am` in key order.
pub open spec fn lists<V>(a: Seq<(u64, Action<V>)>, am: Map<u64, Action<V>>) -> bool {
    &&& acts_sorted(a)
    &&& forall|i: int| 0 <= i < a.len() ==> #[trigger] am.contains_key(a[i].0) && am[a[i].0] == a[i].1
    &&& forall|k: u64| #[trigger] am.contains_key(k) ==> exists|i: int| 0 <= i < a.len() && a[i].0 == k
}

proof fn lemma_find_act<V>(a: Seq<(u64, Action<V>)>, j: u64)
    requires
        acts_sorted(a),
    ensures
        find_act(a, j) is None <==> forall|i: int| 0 <= i < a.len() ==> (#[trigger] a[i]).0 != j,
        forall|i: int| 0 <= i < a.len() && (#[trigger] a[i]).0 == j ==> find_act(a, j) == Some(a[i].1),
    decreases a.len(),
{
    if a.len() > 0 {
        let r = a.skip(1);
        assert(acts_sorted(r)) by {
            assert forall|x: int, y: int| 0 <= x < y < r.len() implies r[x].0 < r[y].0 by {
                assert(r[x] == a[x + 1] && r[y] == a[y + 1]);
            }
        }
        lemma_find_act(r, j);
        assert forall|i: int| 0 < i < a.len() implies a[i] == r[i - 1] by {}
        if a[0].0 == j {
            assert forall|i: int| 0 <= i < a.len() && (#[trigger] a[i]).0 == j implies i == 0 by {
                if i > 0 {
                    assert(a[0].0 < a[i].0);
                }
            }
        }
    }
}

/// Key `j` of a merge: the outcome of the action on `j`, or else the entry of `s`.
proof fn lemma_merge_at<V>(s: Seq<Entry<V>>, a: Seq<(u64, Action<V>)>, j: u64)
    requires
        sorted(s),
        acts_sorted(a),
    ensures
        merge(s, a).filter(at(j)) == match find_act(a, j) {
            Some(act) => outcome((j, act)),
            None => s.filter(at(j)),
        },
    decreases s.len() + a.len(),
{
    if a.len() == 0 {
    } else {
        let a1 = a.skip(1);
        assert(acts_sorted(a1)) by {
            assert forall|x: int, y: int| 0 <= x < y < a1.len() implies a1[x].0 < a1[y].0 by {
                assert(a1[x] == a[x + 1] && a1[y] == a[y + 1]);
            }
        }
        lemma_find_act(a1, j);
        lemma_find_act(a, j);
        let o = outcome(a[0]);
        if a[0].0 == j {
            assert(a1.len() > 0 ==> a[0].0 < a1[0].0);
            assert forall|i: int| 0 <= i < a1.len() implies (#[trigger] a1[i]).0 != j by {
                assert(a1[i] == a[i + 1]);
                assert(a[0].0 < a[i + 1].0);
            }
        }
        lemma_filter_all(o, at(a[0].0));
        if a[0].0 != j {
            lemma_filter_none(o, at(j));
        }
        if s.len() == 0 {
            lemma_merge_at(s, a1, j);
            Seq::filter_distributes_over_add(o, merge(s, a1), at(j));
            lemma_filter_none(s, at(j));
            assert(merge(s, a).filter(at(j)) =~= o.filter(at(j)) + merge(s, a1).filter(at(j)));
            if a[0].0 == j {
                assert(o.filter(at(j)) + Seq::<Entry<V>>::empty() =~= o);
            } else {
                assert(Seq::<Entry<V>>::empty() + merge(s, a1).filter(at(j)) =~= merge(s, a1).filter(at(j)));
            }
        } else {
            let s1 = s.skip(1);
            assert(sorted(s1)) by {
                assert forall|x: int, y: int| 0 <= x < y < s1.len() implies s1[x].0 < s1[y].0 by {
                    assert(s1[x] == s[x + 1] && s1[y] == s[y + 1]);
                }
            }
            assert(s =~= seq![s[0]] + s1);
            Seq::filter_distributes_over_add(seq![s[0]], s1, at(j));
            let h = seq![s[0]];
            if s[0].0 == j {
                lemma_filter_all(h, at(j));
                assert forall|i: int| 0 <= i < s1.len() implies !at(j)(s1[i]) by {
                    assert(s1[i] == s[i + 1]);
                    assert(s[0].0 < s[i + 1].0);
                }
                lemma_filter_none(s1, at(j));
            } else {
                lemma_filter_none(h, at(j));
            }
            if s[0].0 < a[0].0 {
                lemma_merge_at(s1, a, j);
                Seq::filter_distributes_over_add(h, merge(s1, a), at(j));
                if s[0].0 == j {
                    assert forall|i: int| 0 <= i < a.len() implies (#[trigger] a[i]).0 != j by {
                        if i > 0 {
                            assert(a[0].0 < a[i].0);
                        }
                    }
                    assert(h.filter(at(j)) + s1.filter(at(j)) =~= h.filter(at(j)));
                    assert(merge(s, a).filter(at(j)) =~= h.filter(at(j)));
                } else {
                    assert(merge(s, a).filter(at(j)) =~= merge(s1, a).filter(at(j)));
                    assert(Seq::<Entry<V>>::empty() + s1.filter(at(j)) =~= s1.filter(at(j)));
                }
            } else if s[0].0 == a[0].0 {
                lemma_merge_at(s1, a1, j);
                Seq::filter_distributes_over_add(o, merge(s1, a1), at(j));
                if a[0].0 == j {
                    assert(merge(s, a).filter(at(j)) =~= o.filter(at(j)) + s1.filter(at(j)));
                    assert(o.filter(at(j)) + Seq::<Entry<V>>::empty() =~= o);
                } else {
                    assert(merge(s, a).filter(at(j)) =~= merge(s1, a1).filter(at(j)));
                    assert(Seq::<Entry<V>>::empty() + s1.filter(at(j)) =~= s1.filter(at(j)));
                }
            } else {
                lemma_merge_at(s, a1, j);
                Seq::filter_distributes_over_add(o, merge(s, a1), at(j));
                if a[0].0 == j {
                    assert forall|i: int| 0 <= i < s.len() implies !at(j)(s[i]) by {
                        if i > 0 {
                            assert(s[0].0 < s[i].0);
                        }
                    }
                    lemma_filter_none(s, at(j));
                    assert(merge(s, a).filter(at(j)) =~= o.filter(at(j)) + s.filter(at(j)));
                    assert(o.filter(at(j)) + Seq::<Entry<V>>::empty() =~= o);
                } else {
                    assert(merge(s, a).filter(at(j)) =~= merge(s, a1).filter(at(j)));
                    assert(Seq::<Entry<V>>::empty() + merge(s, a1).filter(at(j)) =~= merge(s, a1).filter(at(j)));
                }
            }
        }
    }
}

/// Merging listed actions into a sorted sequence applies them to its map.
pub proof fn lemma_map_merge<V>(s: Seq<Entry<V>>, a: Seq<(u64, Action<V>)>, am: Map<u64, Action<V>>)
    requires
        sorted(s),
        lists(a, am),
    ensures
        to_map(merge(s, a)) == apply(to_map(s), am),
{
    let lhs = to_map(merge(s, a));
    let rhs = apply(to_map(s), am);
    assert forall|j: u64| #[trigger] lhs.contains_key(j) == rhs.contains_key(j) && (lhs.contains_key(j)
        ==> lhs[j] == rhs[j]) by {
        lemma_merge_at(s, a, j);
        lemma_find_act(a, j);
        if am.contains_key(j) {
            let i = choose|i: int| 0 <= i < a.len() && a[i].0 == j;
            assert(am[a[i].0] == a[i].1);
            assert(find_act(a, j) == Some(am[j]));
        } else {
            if find_act(a, j) is Some {
                let i = choose|i: int| 0 <= i < a.len() && (#[trigger] a[i]).0 == j;
                assert(am.contains_key(a[i].0));
            }
        }
    }
    assert(lhs =~= rhs);
}

/// Every key of entries `s` and actions `a` lies above `b`.
pub open spec fn all_above<V>(s: Seq<Entry<V>>, a: Seq<(u64, Action<V>)>, b: int) -> bool {
    &&& forall|i: int| 0 <= i < s.len() ==> b < (#[trigger] s[i]).0
    &&& forall|i: int| 0 <= i < a.len() ==> b < (#[trigger] a[i]).0
}

/// Every key of entries `s` and actions `a` lies below `b`.
pub open spec fn all_below<V>(s: Seq<Entry<V>>, a: Seq<(u64, Action<V>)>, b: int) -> bool {
    &&& forall|i: int| 0 <= i < s.len() ==> (#[trigger] s[i]).0 < b
    &&& forall|i: int| 0 <= i < a.len() ==> (#[trigger] a[i]).0 < b
}

pub proof fn lemma_merge_facts<V>(s: Seq<Entry<V>>, a: Seq<(u64, Action<V>)>, b: int)
    ensures
        merge(s, a).len() <= s.len() + a.len(),
        all_above(s, a, b) ==> keys_above_int(merge(s, a), b),
        sorted(s) && acts_sorted(a) ==> sorted(merge(s, a)),
    decreases s.len() + a.len(),
{
    let r = merge(s, a);
    if a.len() == 0 {
    } else if s.len() == 0 {
        lemma_merge_facts(s, a.skip(1), b);
        lemma_merge_facts(s, a.skip(1), a[0].0 as int);
        lemma_sorted_head(outcome(a[0]), merge(s, a.skip(1)), a[0].0 as int);
    } else if s[0].0 < a[0].0 {
        lemma_merge_facts(s.skip(1), a, b);
        lemma_merge_facts(s.skip(1), a, s[0].0 as int);
        lemma_sorted_head(seq![s[0]], merge(s.skip(1), a), s[0].0 as int);
    } else if s[0].0 == a[0].0 {
        lemma_merge_facts(s.skip(1), a.skip(1), b);
        lemma_merge_facts(s.skip(1), a.skip(1), a[0].0 as int);
        lemma_sorted_head(outcome(a[0]), merge(s.skip(1), a.skip(1)), a[0].0 as int);
    } else {
        lemma_merge_facts(s, a.skip(1), b);
        lemma_merge_facts(s, a.skip(1), a[0].0 as int);
        lemma_sorted_head(outcome(a[0]), merge(s, a.skip(1)), a[0].0 as int);
    }
}

/// Every key of `s` lies above `b`.
pub open spec fn keys_above_int<V>(s: Seq<Entry<V>>, b: int) -> bool {
    forall|i: int| 0 <= i < s.len() ==> b < (#[trigger] s[i]).0
}

/// A head of at most one entry of key `h`, before a run above `h`.
pub proof fn lemma_sorted_head<V>(x: Seq<Entry<V>>, rest: Seq<Entry<V>>, h: int)
    requires
        x.len() <= 1,
        forall|i: int| 0 <= i < x.len() ==> (#[trigger] x[i]).0 == h,
    ensures
        keys_above_int(rest, h) ==> forall|b: int| b < h && keys_above_int(rest, b) ==> keys_above_int(x + rest, b),
        keys_above_int(rest, h) && sorted(rest) ==> sorted(x + rest),
{
    if keys_above_int(rest, h) {
        assert forall|b: int| b < h && keys_above_int(rest, b) implies keys_above_int(x + rest, b) by {
            assert forall|i: int| 0 <= i < (x + rest).len() implies b < (#[trigger] (x + rest)[i]).0 by {
                if i >= x.len() {
                    assert((x + rest)[i] == rest[i - x.len()]);
                }
            }
        }
        if sorted(rest) {
            assert forall|i: int, j: int| 0 <= i < j < (x + rest).len() implies (x + rest)[i].0 < (x
                + rest)[j].0 by {
                assert((x + rest)[j] == rest[j - x.len()]);
                if i >= x.len() {
                    assert((x + rest)[i] == rest[i - x.len()]);
                }
            }
        }
    }
}

/// Applying actions to runs that lie apart by key, one after the other.
pub proof fn lemma_merge_split<V>(
    s1: Seq<Entry<V>>,
    a1: Seq<(u64, Action<V>)>,
    s2: Seq<Entry<V>>,
    a2: Seq<(u64, Action<V>)>,
    b: int,
)
    requires
        all_below(s1, a1, b),
        all_above(s2, a2, b - 1),
    ensures
        merge(s1 + s2, a1 + a2) == merge(s1, a1) + merge(s2, a2),
    decreases s1.len() + a1.len(),
{
    let s = s1 + s2;
    let a = a1 + a2;
    if s1.len() == 0 && a1.len() == 0 {
        assert(s =~= s2);
        assert(a =~= a2);
        assert(merge(s1, a1) =~= Seq::<Entry<V>>::empty());
    } else if a1.len() == 0 {
        assert(a =~= a2);
        assert(s[0] == s1[0]);
        assert(s.skip(1) =~= s1.skip(1) + s2);
        lemma_merge_split(s1.skip(1), a1, s2, a2, b);
        if a2.len() == 0 {
            assert(merge(s, a) == s);
            assert(merge(s1.skip(1) + s2, a2) == s1.skip(1) + s2);
            assert(s1 =~= seq![s1[0]] + s1.skip(1));
            assert(merge(s, a) =~= merge(s1, a1) + merge(s2, a2));
        } else {
            assert(a[0] == a2[0]);
            assert(s1 =~= seq![s1[0]] + s1.skip(1));
            assert(merge(s1.skip(1), a1) == s1.skip(1));
            assert(merge(s, a) =~= merge(s1, a1) + merge(s2, a2));
        }
    } else if s1.len() == 0 {
        assert(s =~= s2);
        assert(a[0] == a1[0]);
        assert(a.skip(1) =~= a1.skip(1) + a2);
        lemma_merge_split(s1, a1.skip(1), s2, a2, b);
        if s2.len() == 0 {
            assert(merge(s, a) =~= merge(s1, a1) + merge(s2, a2));
        } else {
            assert(merge(s, a) =~= merge(s1, a1) + merge(s2, a2));
        }
    } else {
        assert(s[0] == s1[0]);
        assert(a[0] == a1[0]);
        assert(s.skip(1) =~= s1.skip(1) + s2);
        assert(a.skip(1) =~= a1.skip(1) + a2);
        if s1[0].0 < a1[0].0 {
            lemma_merge_split(s1.skip(1), a1, s2, a2, b);
        } else if s1[0].0 == a1[0].0 {
            lemma_merge_split(s1.skip(1), a1.skip(1), s2, a2, b);
        } else {
            lemma_merge_split(s1, a1.skip(1), s2, a2, b);
        }
        assert(merge(s, a) =~= merge(s1, a1) + merge(s2, a2));
    }
}

/// The least expiry among the entries, if any carries one.
pub open spec fn min_expiry<V>(s: Seq<Entry<V>>) -> Option<u64>
    decreases s.len(),
{
    if s.len() == 0 {
        None
    } else {
        min_opt(min_expiry(s.drop_last()), s.last().2)
    }
}

pub open spec fn min_opt(a: Option<u64>, b: Option<u64>) -> Option<u64> {
    match (a, b) {
        (Some(x), Some(y)) => Some(if x <= y { x } else { y }),
        (Some(x), None) => Some(x),
        (None, y) => y,
    }
}

pub proof fn lemma_filter_all<V>(s: Seq<Entry<V>>, p: spec_fn(Entry<V>) -> bool)
    requires
        forall|i: int| 0 <= i < s.len() ==> p(s[i]),
    ensures
        s.filter(p) == s,
    decreases s.len(),
{
    reveal(Seq::filter);
    if s.len() > 0 {
        lemma_filter_all(s.drop_last(), p);
        assert(s.drop_last().push(s.last()) =~= s);
    }
}

pub proof fn lemma_filter_none<V>(s: Seq<Entry<V>>, p: spec_fn(Entry<V>) -> bool)
    requires
        forall|i: int| 0 <= i < s.len() ==> !p(s[i]),
    ensures
        s.filter(p) == Seq::<Entry<V>>::empty(),
    decreases s.len(),
{
    reveal(Seq::filter);
    if s.len() > 0 {
        lemma_filter_none(s.drop_last(), p);
    }
}

/// Filtering by `p` and then by `q` is filtering by their conjunction `r`.
pub proof fn lemma_filter_and<V>(
    s: Seq<Entry<V>>,
    p: spec_fn(Entry<V>) -> bool,
    q: spec_fn(Entry<V>) -> bool,
    r: spec_fn(Entry<V>) -> bool,
)
    requires
        forall|e: Entry<V>| #[trigger] r(e) == (p(e) && q(e)),
    ensures
        s.filter(p).filter(q) == s.filter(r),
    decreases s.len(),
{
    reveal(Seq::filter);
    if s.len() > 0 {
        lemma_filter_and(s.drop_last(), p, q, r);
        let t = s.drop_last().filter(p);
        if p(s.last()) {
            assert(t.push(s.last()).drop_last() =~= t);
        }
    }
}

/// Every element of a filtered sequence satisfies the filter and comes from the sequence.
pub proof fn lemma_filter_elem<V>(s: Seq<Entry<V>>, p: spec_fn(Entry<V>) -> bool, i: int)
    requires
        0 <= i < s.filter(p).len(),
    ensures
        p(s.filter(p)[i]),
        s.contains(s.filter(p)[i]),
{
    s.lemma_filter_pred(p, i);
    s.lemma_filter_contains_rev(p, s.filter(p)[i]);
}

pub proof fn lemma_sorted_concat<V>(a: Seq<Entry<V>>, b: Seq<Entry<V>>)
    requires
        sorted(a),
        sorted(b),
        forall|i: int, j: int| 0 <= i < a.len() && 0 <= j < b.len() ==> a[i].0 < b[j].0,
    ensures
        sorted(a + b),
{
    assert forall|i: int, j: int| 0 <= i < j < (a + b).len() implies (a + b)[i].0 < (a
        + b)[j].0 by {
        if j < a.len() {
        } else if i >= a.len() {
            assert((a + b)[i] == b[i - a.len()]);
            assert((a + b)[j] == b[j - a.len()]);
        } else {
            assert((a + b)[j] == b[j - a.len()]);
        }
    }
}

/// In a sorted sequence, the entries below, at and above index `i` split by `s[i]`'s key.
pub proof fn lemma_sorted_pivot<V>(s: Seq<Entry<V>>, i: int)
    requires
        sorted(s),
        0 <= i < s.len(),
    ensures
        s.filter(below(s[i].0)) == s.take(i),
        s.filter(above(s[i].0)) == s.skip(i + 1),
        s.filter(at(s[i].0)) == seq![s[i]],
{
    lemma_gap(s, i, i + 1, s[i].0);
    assert(s.subrange(i, i + 1) =~= seq![s[i]]);
}

/// The split of a sorted sequence around key `k` when the entries of index below `lo`
/// lie under `k` and those from `hi` on lie over it.
pub proof fn lemma_gap<V>(s: Seq<Entry<V>>, lo: int, hi: int, k: u64)
    requires
        0 <= lo <= hi <= s.len(),
        hi <= lo + 1,
        forall|j: int| 0 <= j < lo ==> s[j].0 < k,
        forall|j: int| hi <= j < s.len() ==> s[j].0 > k,
        lo < hi ==> s[lo].0 == k,
    ensures
        s.filter(below(k)) == s.take(lo),
        s.filter(above(k)) == s.skip(hi),
        s.filter(at(k)) == s.subrange(lo, hi),
{
    let a = s.take(lo);
    let m = s.subrange(lo, hi);
    let b = s.skip(hi);
    assert(s =~= a + m + b);
    Seq::filter_distributes_over_add(a + m, b, below(k));
    Seq::filter_distributes_over_add(a, m, below(k));
    Seq::filter_distributes_over_add(a + m, b, above(k));
    Seq::filter_distributes_over_add(a, m, above(k));
    Seq::filter_distributes_over_add(a + m, b, at(k));
    Seq::filter_distributes_over_add(a, m, at(k));
    lemma_filter_all(a, below(k));
    lemma_filter_none(m, below(k));
    lemma_filter_none(b, below(k));
    lemma_filter_none(a, above(k));
    lemma_filter_none(m, above(k));
    lemma_filter_all(b, above(k));
    lemma_filter_none(a, at(k));
    lemma_filter_all(m, at(k));
    lemma_filter_none(b, at(k));
    assert(s.filter(below(k)) =~= a);
    assert(s.filter(above(k)) =~= b);
    assert(s.filter(at(k)) =~= m);
}

/// As `lemma_gap`, for the filters that drop key `k` and that keep keys from `k` on.
pub proof fn lemma_gap_rest<V>(s: Seq<Entry<V>>, lo: int, hi: int, k: u64)
    requires
        0 <= lo <= hi <= s.len(),
        hi <= lo + 1,
        forall|j: int| 0 <= j < lo ==> s[j].0 < k,
        forall|j: int| hi <= j < s.len() ==> s[j].0 > k,
        lo < hi ==> s[lo].0 == k,
    ensures
        s.filter(other(k)) == s.take(lo) + s.skip(hi),
        s.filter(at_least(k)) == s.skip(lo),
{
    let a = s.take(lo);
    let m = s.subrange(lo, hi);
    let b = s.skip(hi);
    assert(s =~= a + m + b);
    Seq::filter_distributes_over_add(a + m, b, other(k));
    Seq::filter_distributes_over_add(a, m, other(k));
    Seq::filter_distributes_over_add(a + m, b, at_least(k));
    Seq::filter_distributes_over_add(a, m, at_least(k));
    lemma_filter_all(a, other(k));
    lemma_filter_none(m, other(k));
    lemma_filter_all(b, other(k));
    lemma_filter_none(a, at_least(k));
    lemma_filter_all(m, at_least(k));
    lemma_filter_all(b, at_least(k));
    assert(s.filter(other(k)) =~= a + b);
    assert(s.filter(at_least(k)) =~= s.skip(lo));
}

/// Filtering three runs side by side.
pub proof fn lemma_three<V>(
    a: Seq<Entry<V>>,
    m: Seq<Entry<V>>,
    b: Seq<Entry<V>>,
    p: spec_fn(Entry<V>) -> bool,
)
    ensures
        (a + m + b).filter(p) == a.filter(p) + m.filter(p) + b.filter(p),
{
    Seq::filter_distributes_over_add(a + m, b, p);
    Seq::filter_distributes_over_add(a, m, p);
}

} // verus!

verus! {

/// The entries that a sequence of shared items holds.
pub open spec fn deref_all<V>(s: Seq<Item<V>>) -> Seq<Entry<V>> {
    s.map_values(|it: Item<V>| *it)
}

/// `r` is the entry of key `k` that `s` held, or `None` where it held none.
pub open spec fn displaced<V>(s: Seq<Entry<V>>, k: u64, r: Option<Item<V>>) -> bool {
    match r {
        Some(it) => s.filter(at(k)) == seq![*it],
        None => s.filter(at(k)).len() == 0,
    }
}

pub proof fn lemma_filter_sorted<V>(s: Seq<Entry<V>>, p: spec_fn(Entry<V>) -> bool)
    requires
        sorted(s),
    ensures
        sorted(s.filter(p)),
    decreases s.len(),
{
    reveal(Seq::filter);
    if s.len() > 0 {
        let t = s.drop_last();
        lemma_filter_sorted(t, p);
        if p(s.last()) {
            assert forall|i: int| 0 <= i < t.filter(p).len() implies t.filter(p)[i].0 < s.last().0 by {
                lemma_filter_elem(t, p, i);
            }
        }
    }
}

/// An entry of `put_seq(s, e)` is `e` or one of `s`.
pub proof fn put_seq_elem<V>(s: Seq<Entry<V>>, e: Entry<V>, a: int)
    requires
        0 <= a < put_seq(s, e).len(),
    ensures
        put_seq(s, e)[a] == e || s.contains(put_seq(s, e)[a]),
{
    let lo = s.filter(below(e.0));
    let hi = s.filter(above(e.0));
    if a < lo.len() {
        lemma_filter_elem(s, below(e.0), a);
    } else if a > lo.len() {
        lemma_filter_elem(s, above(e.0), a - lo.len() - 1);
    }
}

/// The two halves of a sorted sequence cut at `mid` are sorted, and split by `s[mid]`'s key.
pub proof fn lemma_halves<V>(s: Seq<Entry<V>>, mid: int)
    requires
        sorted(s),
        0 <= mid < s.len(),
    ensures
        sorted(s.take(mid)),
        sorted(s.skip(mid)),
        s == s.take(mid) + s.skip(mid),
        forall|a: int| 0 <= a < mid ==> #[trigger] s.take(mid)[a].0 < s[mid].0,
        forall|a: int| 0 <= a < s.len() - mid ==> #[trigger] s.skip(mid)[a].0 >= s[mid].0,
{
    assert(s =~= s.take(mid) + s.skip(mid));
}

/// Putting a key below `km` into the lower half of a split run.
pub proof fn lemma_put_left<V>(ls: Seq<Entry<V>>, rs: Seq<Entry<V>>, e: Entry<V>, km: u64)
    requires
        sorted(ls),
        sorted(rs),
        sorted(put_seq(ls, e)),
        forall|a: int| 0 <= a < ls.len() ==> #[trigger] ls[a].0 < km,
        forall|a: int| 0 <= a < rs.len() ==> #[trigger] rs[a].0 >= km,
        e.0 < km,
    ensures
        put_seq(ls + rs, e) == put_seq(ls, e) + rs,
        sorted(put_seq(ls, e) + rs),
        (ls + rs).filter(at(e.0)) == ls.filter(at(e.0)),
{
    let k = e.0;
    Seq::filter_distributes_over_add(ls, rs, below(k));
    Seq::filter_distributes_over_add(ls, rs, above(k));
    Seq::filter_distributes_over_add(ls, rs, at(k));
    lemma_filter_none(rs, below(k));
    lemma_filter_all(rs, above(k));
    lemma_filter_none(rs, at(k));
    let l2 = put_seq(ls, e);
    assert forall|a: int| 0 <= a < l2.len() implies l2[a].0 < km by {
        put_seq_elem(ls, e, a);
    }
    lemma_sorted_concat(l2, rs);
    assert(put_seq(ls + rs, e) =~= l2 + rs);
    assert((ls + rs).filter(at(k)) =~= ls.filter(at(k)));
}

/// Putting a key at or above `km` into the upper half of a split run.
pub proof fn lemma_put_right<V>(ls: Seq<Entry<V>>, rs: Seq<Entry<V>>, e: Entry<V>, km: u64)
    requires
        sorted(ls),
        sorted(rs),
        sorted(put_seq(rs, e)),
        forall|a: int| 0 <= a < ls.len() ==> #[trigger] ls[a].0 < km,
        forall|a: int| 0 <= a < rs.len() ==> #[trigger] rs[a].0 >= km,
        e.0 >= km,
    ensures
        put_seq(ls + rs, e) == ls + put_seq(rs, e),
        sorted(ls + put_seq(rs, e)),
        (ls + rs).filter(at(e.0)) == rs.filter(at(e.0)),
{
    let k = e.0;
    Seq::filter_distributes_over_add(ls, rs, below(k));
    Seq::filter_distributes_over_add(ls, rs, above(k));
    Seq::filter_distributes_over_add(ls, rs, at(k));
    lemma_filter_all(ls, below(k));
    lemma_filter_none(ls, above(k));
    lemma_filter_none(ls, at(k));
    let r2 = put_seq(rs, e);
    assert forall|a: int| 0 <= a < r2.len() implies r2[a].0 >= km by {
        put_seq_elem(rs, e, a);
    }
    lemma_sorted_concat(ls, r2);
    assert(put_seq(ls + rs, e) =~= ls + r2);
    assert((ls + rs).filter(at(k)) =~= rs.filter(at(k)));
}

/// Putting the key of `s[mid]` replaces that entry.
pub proof fn lemma_put_pivot<V>(s: Seq<Entry<V>>, mid: int, e: Entry<V>)
    requires
        sorted(s),
        0 <= mid < s.len(),
        e.0 == s[mid].0,
    ensures
        put_seq(s, e) == s.take(mid) + s.skip(mid).update(0, e),
        sorted(s.take(mid) + s.skip(mid).update(0, e)),
        s.filter(at(e.0)) == seq![s.skip(mid)[0]],
{
    lemma_sorted_pivot(s, mid);
    let t = s.take(mid) + s.skip(mid).update(0, e);
    assert(t =~= s.update(mid, e));
    assert(put_seq(s, e) =~= t);
    assert forall|a: int, b: int| 0 <= a < b < t.len() implies t[a].0 < t[b].0 by {
        assert(t[a].0 == s[a].0);
        assert(t[b].0 == s[b].0);
    }
}

/// The least expiry of two runs side by side.
pub proof fn lemma_min_expiry_add<V>(a: Seq<Entry<V>>, b: Seq<Entry<V>>)
    ensures
        min_expiry(a + b) == min_opt(min_expiry(a), min_expiry(b)),
    decreases b.len(),
{
    if b.len() == 0 {
        assert(a + b =~= a);
    } else {
        lemma_min_expiry_add(a, b.drop_last());
        assert((a + b).drop_last() =~= a + b.drop_last());
    }
}

/// A sub-run of a sorted sequence is sorted.
pub proof fn lemma_sorted_sub<V>(s: Seq<Entry<V>>, lo: int, hi: int)
    requires
        sorted(s),
        0 <= lo <= hi <= s.len(),
    ensures
        sorted(s.subrange(lo, hi)),
{
    assert forall|a: int, b: int| 0 <= a < b < hi - lo implies s.subrange(lo, hi)[a].0 < s.subrange(
        lo,
        hi,
    )[b].0 by {
        assert(s.subrange(lo, hi)[a] == s[lo + a]);
        assert(s.subrange(lo, hi)[b] == s[lo + b]);
    }
}

/// Every key of `s` lies below `k`.
pub open spec fn keys_below<V>(s: Seq<Entry<V>>, k: u64) -> bool {
    forall|i: int| 0 <= i < s.len() ==> (#[trigger] s[i]).0 < k
}

/// Every key of `s` lies above `k`.
pub open spec fn keys_above<V>(s: Seq<Entry<V>>, k: u64) -> bool {
    forall|i: int| 0 <= i < s.len() ==> (#[trigger] s[i]).0 > k
}

/// Every key of `a` lies below every key of `b`.
pub open spec fn before<V>(a: Seq<Entry<V>>, b: Seq<Entry<V>>) -> bool {
    forall|i: int, j: int| 0 <= i < a.len() && 0 <= j < b.len() ==> a[i].0 < b[j].0
}

/// A sorted sequence cut in three.
pub proof fn lemma_sorted_three<V>(a: Seq<Entry<V>>, c: Seq<Entry<V>>, b: Seq<Entry<V>>)
    requires
        sorted(a + c + b),
    ensures
        sorted(a),
        sorted(c),
        sorted(b),
        before(a, c),
        before(c, b),
        before(a, b),
{
    let s = a + c + b;
    assert forall|i: int, j: int| 0 <= i < j < a.len() implies a[i].0 < a[j].0 by {
        assert(s[i] == a[i] && s[j] == a[j]);
    }
    assert forall|i: int, j: int| 0 <= i < j < c.len() implies c[i].0 < c[j].0 by {
        assert(s[a.len() + i] == c[i] && s[a.len() + j] == c[j]);
    }
    assert forall|i: int, j: int| 0 <= i < j < b.len() implies b[i].0 < b[j].0 by {
        assert(s[a.len() + c.len() + i] == b[i] && s[a.len() + c.len() + j] == b[j]);
    }
    assert forall|i: int, j: int| 0 <= i < a.len() && 0 <= j < c.len() implies a[i].0 < c[j].0 by {
        assert(s[i] == a[i] && s[a.len() + j] == c[j]);
    }
    assert forall|i: int, j: int| 0 <= i < c.len() && 0 <= j < b.len() implies c[i].0 < b[j].0 by {
        assert(s[a.len() + i] == c[i] && s[a.len() + c.len() + j] == b[j]);
    }
    assert forall|i: int, j: int| 0 <= i < a.len() && 0 <= j < b.len() implies a[i].0 < b[j].0 by {
        assert(s[i] == a[i] && s[a.len() + c.len() + j] == b[j]);
    }
}

/// The halves of a sorted sequence are sorted.
pub proof fn lemma_sorted_halves<V>(a: Seq<Entry<V>>, b: Seq<Entry<V>>)
    requires
        sorted(a + b),
    ensures
        sorted(a),
        sorted(b),
        before(a, b),
{
    assert(a + b + Seq::<Entry<V>>::empty() =~= a + b);
    lemma_sorted_three(a, b, Seq::<Entry<V>>::empty());
}

/// Three sorted runs in order make a sorted sequence.
pub proof fn lemma_sorted_join<V>(a: Seq<Entry<V>>, c: Seq<Entry<V>>, b: Seq<Entry<V>>)
    requires
        sorted(a),
        sorted(c),
        sorted(b),
        before(a, c),
        before(c, b),
        before(a, b),
    ensures
        sorted(a + c + b),
{
    lemma_sorted_concat(a, c);
    assert forall|i: int, j: int| 0 <= i < (a + c).len() && 0 <= j < b.len() implies (a + c)[i].0
        < b[j].0 by {
        if i >= a.len() {
            assert((a + c)[i] == c[i - a.len()]);
        }
    }
    lemma_sorted_concat(a + c, b);
}

/// Putting into the middle run of three, where the outer runs hold no key near `e`'s.
pub proof fn lemma_put_mid<V>(a: Seq<Entry<V>>, c: Seq<Entry<V>>, b: Seq<Entry<V>>, e: Entry<V>)
    requires
        sorted(a + c + b),
        sorted(put_seq(c, e)),
        keys_below(a, e.0),
        keys_above(b, e.0),
    ensures
        put_seq(a + c + b, e) == a + put_seq(c, e) + b,
        sorted(a + put_seq(c, e) + b),
        (a + c + b).filter(at(e.0)) == c.filter(at(e.0)),
{
    let k = e.0;
    let x = Seq::<Entry<V>>::empty();
    lemma_sorted_three(a, c, b);
    lemma_three(a, c, b, below(k));
    lemma_filter_all(a, below(k));
    lemma_filter_none(b, below(k));
    lemma_three(a, c, b, above(k));
    lemma_filter_none(a, above(k));
    lemma_filter_all(b, above(k));
    lemma_three(a, c, b, at(k));
    lemma_filter_none(a, at(k));
    lemma_filter_none(b, at(k));
    let p = put_seq(c, e);
    assert(put_seq(a + c + b, e) =~= a + p + b);
    assert((a + c + b).filter(at(k)) =~= c.filter(at(k)));
    assert forall|i: int, j: int| 0 <= i < a.len() && 0 <= j < p.len() implies a[i].0 < p[j].0 by {
        put_seq_elem(c, e, j);
    }
    assert forall|i: int, j: int| 0 <= i < p.len() && 0 <= j < b.len() implies p[i].0 < b[j].0 by {
        put_seq_elem(c, e, i);
    }
    lemma_sorted_join(a, p, b);
}

/// Looking `k` up in the middle run of three, where the outer runs do not hold `k`.
pub proof fn lemma_at_mid<V>(a: Seq<Entry<V>>, c: Seq<Entry<V>>, b: Seq<Entry<V>>, k: u64)
    requires
        keys_below(a, k),
        keys_above(b, k),
    ensures
        (a + c + b).filter(at(k)) == c.filter(at(k)),
{
    lemma_three(a, c, b, at(k));
    lemma_filter_none(a, at(k));
    lemma_filter_none(b, at(k));
    assert((a + c + b).filter(at(k)) =~= c.filter(at(k)));
}

/// Dropping key `k` from the middle run of three, where the outer runs do not hold `k`.
pub proof fn lemma_remove_mid<V>(a: Seq<Entry<V>>, c: Seq<Entry<V>>, b: Seq<Entry<V>>, k: u64)
    requires
        sorted(a + c + b),
        keys_below(a, k),
        keys_above(b, k),
    ensures
        (a + c + b).filter(other(k)) == a + c.filter(other(k)) + b,
        sorted(a + c.filter(other(k)) + b),
        (a + c + b).filter(at(k)) == c.filter(at(k)),
{
    lemma_sorted_three(a, c, b);
    lemma_three(a, c, b, other(k));
    lemma_filter_all(a, other(k));
    lemma_filter_all(b, other(k));
    lemma_three(a, c, b, at(k));
    lemma_filter_none(a, at(k));
    lemma_filter_none(b, at(k));
    assert((a + c + b).filter(at(k)) =~= c.filter(at(k)));
    let p = c.filter(other(k));
    lemma_filter_sorted(c, other(k));
    assert forall|i: int, j: int| 0 <= i < a.len() && 0 <= j < p.len() implies a[i].0 < p[j].0 by {
        lemma_filter_elem(c, other(k), j);
    }
    assert forall|i: int, j: int| 0 <= i < p.len() && 0 <= j < b.len() implies p[i].0 < b[j].0 by {
        lemma_filter_elem(c, other(k), i);
    }
    lemma_sorted_join(a, p, b);
}

/// Cutting three runs at `k`, where the outer runs lie below and above `k`.
pub proof fn lemma_split_mid<V>(a: Seq<Entry<V>>, c: Seq<Entry<V>>, b: Seq<Entry<V>>, k: u64)
    requires
        sorted(a + c + b),
        keys_below(a, k),
        keys_above(b, k),
    ensures
        (a + c + b).filter(below(k)) == a + c.filter(below(k)),
        (a + c + b).filter(at_least(k)) == c.filter(at_least(k)) + b,
{
    lemma_three(a, c, b, below(k));
    lemma_filter_all(a, below(k));
    lemma_filter_none(b, below(k));
    lemma_three(a, c, b, at_least(k));
    lemma_filter_none(a, at_least(k));
    lemma_filter_all(b, at_least(k));
    assert((a + c + b).filter(below(k)) =~= a + c.filter(below(k)));
    assert((a + c + b).filter(at_least(k)) =~= c.filter(at_least(k)) + b);
}

/// Where no expiry lies before `now`, every entry is live.
pub proof fn lemma_min_expiry_live<V>(s: Seq<Entry<V>>, now: u64)
    requires
        match min_expiry(s) {
            Some(t) => t >= now,
            None => true,
        },
    ensures
        s.filter(live(now)) == s,
    decreases s.len(),
{
    if s.len() > 0 {
        lemma_min_expiry_live(s.drop_last(), now);
        assert(s.drop_last().push(s.last()) =~= s);
        reveal(Seq::filter);
    }
}

/// Each entry lies below, at or above `k`.
pub proof fn lemma_trichotomy<V>(s: Seq<Entry<V>>, k: u64)
    ensures
        s.filter(below(k)).len() + s.filter(at(k)).len() + s.filter(above(k)).len() == s.len(),
    decreases s.len(),
{
    reveal(Seq::filter);
    if s.len() > 0 {
        lemma_trichotomy(s.drop_last(), k);
    }
}

/// Keeping the entries whose key `keep` admits keeps the map to those keys.
pub proof fn lemma_map_keys<V>(s: Seq<Entry<V>>, p: spec_fn(Entry<V>) -> bool, keep: spec_fn(u64) -> bool)
    requires
        forall|e: Entry<V>| #[trigger] p(e) == keep(e.0),
    ensures
        to_map(s.filter(p)) == to_map(s).restrict(Set::new(keep)),
{
    assert forall|j: u64| #[trigger] s.filter(p).filter(at(j)) == if keep(j) {
        s.filter(at(j))
    } else {
        Seq::<Entry<V>>::empty()
    } by {
        if keep(j) {
            lemma_filter_and(s, p, at(j), at(j));
        } else {
            let never = |e: Entry<V>| false;
            lemma_filter_and(s, p, at(j), never);
            lemma_filter_none(s, never);
        }
    }
    assert(to_map(s.filter(p)) =~= to_map(s).restrict(Set::new(keep)));
}

/// Putting `e` into the sequence puts it into the map.
pub proof fn lemma_map_put<V>(s: Seq<Entry<V>>, e: Entry<V>)
    ensures
        to_map(put_seq(s, e)) == to_map(s).insert(e.0, e),
{
    let k = e.0;
    let lo = s.filter(below(k));
    let hi = s.filter(above(k));
    let one = seq![e];
    assert forall|j: u64| #[trigger] put_seq(s, e).filter(at(j)) == if j == k {
        one
    } else {
        s.filter(at(j))
    } by {
        lemma_three(lo, one, hi, at(j));
        let never = |x: Entry<V>| false;
        if j == k {
            lemma_filter_and(s, below(k), at(j), never);
            lemma_filter_and(s, above(k), at(j), never);
            lemma_filter_none(s, never);
            lemma_filter_all(one, at(j));
            assert(put_seq(s, e).filter(at(j)) =~= one);
        } else if j < k {
            lemma_filter_and(s, below(k), at(j), at(j));
            lemma_filter_and(s, above(k), at(j), never);
            lemma_filter_none(s, never);
            lemma_filter_none(one, at(j));
            assert(put_seq(s, e).filter(at(j)) =~= s.filter(at(j)));
        } else {
            lemma_filter_and(s, below(k), at(j), never);
            lemma_filter_and(s, above(k), at(j), at(j));
            lemma_filter_none(s, never);
            lemma_filter_none(one, at(j));
            assert(put_seq(s, e).filter(at(j)) =~= s.filter(at(j)));
        }
    }
    assert(to_map(put_seq(s, e)) =~= to_map(s).insert(e.0, e));
}

/// A filter that keeps as many entries as there are keeps them all.
pub proof fn lemma_filter_full<V>(s: Seq<Entry<V>>, p: spec_fn(Entry<V>) -> bool)
    requires
        s.filter(p).len() == s.len(),
    ensures
        s.filter(p) == s,
        forall|i: int| 0 <= i < s.len() ==> p(s[i]),
    decreases s.len(),
{
    reveal(Seq::filter);
    if s.len() > 0 {
        let t = s.drop_last();
        t.lemma_filter_len(p);
        lemma_filter_full(t, p);
        assert(t.push(s.last()) =~= s);
    }
}

} // verus!
