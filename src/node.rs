//! Internal nodes: runs of child nodes with cached summaries.

use std::sync::Arc;
use vstd::prelude::*;

use crate::batch_write::Action;
use crate::model::{
    acts_sorted, at, at_least, below, displaced, lemma_at_mid, lemma_filter_sorted,
    lemma_merge_facts, lemma_merge_split, lemma_min_expiry_add, lemma_min_expiry_live,
    lemma_put_mid, lemma_remove_mid, lemma_sorted_halves, lemma_sorted_three, lemma_split_mid,
    lemma_trichotomy, live, merge, min_expiry, other, put_seq, sorted,
};
use crate::tree::{
    all_level, lemma_instance_level, lemma_level_add, lemma_level_nonempty, lemma_level_sub,
    same_level,    all_fit, lemma_fit_add, lemma_fit_sub, no_wider,
    all_wf, cmp, copy_range, flat, lemma_all_wf_add, lemma_all_wf_sub, lemma_first_keys,
    lemma_flat_add, lemma_flat_nonempty, lemma_flat_one, lemma_flat_split, lemma_flat_two,
    lemma_flat_window, lemma_nonempty, lemma_route, lemma_route_key, nonempty, put_result,
    BTreeType, Entry, Item, N, PutResult,
};

verus! {

pub struct Node<V> {
    /// The first item below this node: the key that routes to it.
    pub key: Option<Item<V>>,
    /// The least expiry below this node.
    pub ttl: Option<u64>,
    /// The number of items below this node.
    pub length: usize,
    pub children: Vec<N<V>>,
}

/// The siblings from `start` up to `index` lie below every action, so they are kept.
proof fn lemma_write_skip<V>(cs: Seq<N<V>>, start: int, index: int, acts: Seq<(u64, Action<V>)>)
    requires
        all_wf(cs),
        sorted(flat(cs)),
        0 <= start <= index < cs.len(),
        acts.len() > 0,
        acts_sorted(acts),
        index == 0 || cs[index].entries()[0].0 <= acts[0].0,
        index + 1 < cs.len() ==> acts[0].0 < cs[index + 1].entries()[0].0,
    ensures
        merge(flat(cs.skip(start)), acts) == flat(cs.subrange(start, index)) + merge(
            flat(cs.skip(index)),
            acts,
        ),
        flat(cs.skip(index)) == cs[index].entries() + flat(cs.skip(index + 1)),
{
    lemma_route(cs, index);
    lemma_flat_window(cs, start, index);
    assert(cs[index].wf() && cs[index].entries().len() > 0);
    let mid = flat(cs.subrange(start, index));
    let tail = flat(cs.skip(index));
    let f = cs[index].entries()[0].0 as int;
    let k0 = acts[0].0 as int;
    let b = if f <= k0 {
        f
    } else {
        k0
    };
    let rest = cs.skip(index);
    lemma_flat_split(rest, 0);
    assert(rest.take(0) =~= Seq::<N<V>>::empty());
    assert(flat(rest.take(0)) =~= Seq::<Entry<V>>::empty());
    assert(rest.skip(1) =~= cs.skip(index + 1));
    assert(rest[0] == cs[index]);
    assert(flat(cs.take(index)) == flat(cs.take(start)) + mid);
    if index == 0 {
        assert(cs.subrange(start, index) =~= Seq::<N<V>>::empty());
        assert(mid =~= Seq::<Entry<V>>::empty());
    }
    assert forall|i: int| 0 <= i < mid.len() implies (#[trigger] mid[i]).0 < b by {
        assert(flat(cs.take(index))[flat(cs.take(start)).len() + i] == mid[i]);
    }
    assert forall|i: int| 0 <= i < tail.len() implies b - 1 < (#[trigger] tail[i]).0 by {
        if i > 0 {
            assert(tail[0].0 < tail[i].0);
        }
    }
    assert forall|i: int| 0 <= i < acts.len() implies b - 1 < (#[trigger] acts[i]).0 by {
        if i > 0 {
            assert(acts[0].0 < acts[i].0);
        }
    }
    lemma_merge_split(mid, Seq::empty(), tail, acts, b);
    assert(Seq::<(u64, Action<V>)>::empty() + acts =~= acts);
    assert(merge(mid, Seq::empty()) == mid);
}

/// The actions below the first key of the next sibling go to child `index`, the rest on.
proof fn lemma_write_cut<V>(
    cs: Seq<N<V>>,
    index: int,
    whole: Seq<(u64, Action<V>)>,
    part: Seq<(u64, Action<V>)>,
    rest: Seq<(u64, Action<V>)>,
    bound: u64,
)
    requires
        all_wf(cs),
        sorted(flat(cs)),
        0 <= index,
        index + 1 < cs.len(),
        bound == cs[index + 1].entries()[0].0,
        acts_sorted(whole),
        whole == part + rest,
        forall|i: int| 0 <= i < part.len() ==> (#[trigger] part[i]).0 < bound,
        rest.len() > 0 ==> rest[0].0 >= bound,
    ensures
        merge(cs[index].entries() + flat(cs.skip(index + 1)), whole) == merge(
            cs[index].entries(),
            part,
        ) + merge(flat(cs.skip(index + 1)), rest),
        acts_sorted(part),
        acts_sorted(rest),
        forall|i: int| 0 <= i < rest.len() ==> bound <= (#[trigger] rest[i]).0,
{
    lemma_route(cs, index);
    let c = cs[index].entries();
    let after = flat(cs.skip(index + 1));
    assert forall|i: int| 0 <= i < c.len() implies (#[trigger] c[i]).0 < bound by {
        assert(after[0].0 == bound);
    }
    assert forall|i: int| 0 <= i < after.len() implies bound - 1 < (#[trigger] after[i]).0 by {
        if i > 0 {
            assert(after[0].0 < after[i].0);
        }
    }
    assert forall|x: int, y: int| 0 <= x < y < part.len() implies part[x].0 < part[y].0 by {
        assert(part[x] == whole[x]);
        assert(part[y] == whole[y]);
    }
    assert forall|x: int, y: int| 0 <= x < y < rest.len() implies rest[x].0 < rest[y].0 by {
        assert(rest[x] == whole[part.len() + x]);
        assert(rest[y] == whole[part.len() + y]);
    }
    assert forall|i: int| 0 <= i < rest.len() implies bound <= (#[trigger] rest[i]).0 by {
        if i > 0 {
            assert(rest[0].0 < rest[i].0);
        }
    }
    lemma_merge_split(c, part, after, rest, bound as int);
}

/// The children of a node after child `i` is replaced by the nodes `vs` that a put
/// into it handed back.
proof fn lemma_put_children<V>(
    cs: Seq<N<V>>,
    i: int,
    vs: Seq<N<V>>,
    e: Entry<V>,
    children: Seq<N<V>>,
    m: nat,
    l: nat,
)
    requires
        all_fit(cs, m),
        all_level(cs, l),
        all_level(vs, l),
        all_wf(cs),
        sorted(flat(cs)),
        0 <= i < cs.len(),
        i == 0 || cs[i].entries()[0].0 <= e.0,
        i + 1 < cs.len() ==> e.0 < cs[i + 1].entries()[0].0,
        put_result(vs, cs[i].entries(), e, m),
        children == cs.take(i) + vs + cs.skip(i + 1),
        flat(cs).len() < usize::MAX,
    ensures
        all_wf(children),
        all_fit(children, m),
        all_level(children, l),
        children.len() <= cs.len() + 1,
        flat(children) == put_seq(flat(cs), e),
        sorted(flat(children)),
        flat(children).len() <= usize::MAX,
        flat(cs).filter(at(e.0)) == cs[i].entries().filter(at(e.0)),
{
    let a = cs.take(i);
    let b = cs.skip(i + 1);
    lemma_route_key(cs, i, e.0);
    lemma_flat_add(a + vs, b);
    lemma_flat_add(a, vs);
    lemma_put_mid(flat(a), cs[i].entries(), flat(b), e);
    lemma_trichotomy(flat(cs), e.0);
    lemma_all_wf_sub(cs, 0, i);
    lemma_all_wf_sub(cs, i + 1, cs.len() as int);
    assert(cs.subrange(0, i) =~= a);
    assert(cs.subrange(i + 1, cs.len() as int) =~= b);
    lemma_all_wf_add(a, vs);
    lemma_all_wf_add(a + vs, b);
    lemma_fit_sub(cs, 0, i, m);
    lemma_fit_sub(cs, i + 1, cs.len() as int, m);
    lemma_fit_add(a, vs, m);
    lemma_fit_add(a + vs, b, m);
    lemma_level_sub(cs, 0, i, l);
    lemma_level_sub(cs, i + 1, cs.len() as int, l);
    lemma_level_add(a, vs, l);
    lemma_level_add(a + vs, b, l);
}

/// Child `i` cut at `k` into `l` and `r`: the runs before and after the cut hold the
/// entries below `k` and from `k` on.
proof fn lemma_split_children<V>(cs: Seq<N<V>>, i: int, k: u64, l: N<V>, r: N<V>)
    requires
        all_wf(cs),
        sorted(flat(cs)),
        0 <= i < cs.len(),
        i == 0 || cs[i].entries()[0].0 <= k,
        i + 1 < cs.len() ==> k < cs[i + 1].entries()[0].0,
        l.wf(),
        r.wf(),
        l.entries() == cs[i].entries().filter(below(k)),
        r.entries() == cs[i].entries().filter(at_least(k)),
        flat(cs).len() <= usize::MAX,
    ensures
        all_wf(cs.take(i) + nonempty(l)),
        all_wf(nonempty(r) + cs.skip(i + 1)),
        sorted(flat(cs.take(i) + nonempty(l))),
        sorted(flat(nonempty(r) + cs.skip(i + 1))),
        flat(cs.take(i) + nonempty(l)) == flat(cs).filter(below(k)),
        flat(nonempty(r) + cs.skip(i + 1)) == flat(cs).filter(at_least(k)),
        flat(cs.take(i) + nonempty(l)).len() <= usize::MAX,
        flat(nonempty(r) + cs.skip(i + 1)).len() <= usize::MAX,
{
    let a = cs.take(i);
    let b = cs.skip(i + 1);
    lemma_route_key(cs, i, k);
    lemma_split_mid(flat(a), cs[i].entries(), flat(b), k);
    lemma_filter_sorted(flat(cs), below(k));
    lemma_filter_sorted(flat(cs), at_least(k));
    flat(cs).lemma_filter_len(below(k));
    flat(cs).lemma_filter_len(at_least(k));
    lemma_flat_add(a, nonempty(l));
    lemma_flat_add(nonempty(r), b);
    lemma_nonempty(l);
    lemma_nonempty(r);
    lemma_all_wf_sub(cs, 0, i);
    lemma_all_wf_sub(cs, i + 1, cs.len() as int);
    assert(cs.subrange(0, i) =~= a);
    assert(cs.subrange(i + 1, cs.len() as int) =~= b);
    lemma_all_wf_add(a, nonempty(l));
    lemma_all_wf_add(nonempty(r), b);
}

/// Child `i` cut in two: the runs before and after the cut keep the level of the siblings.
proof fn lemma_split_levels<V>(cs: Seq<N<V>>, i: int, l: N<V>, r: N<V>, lv: nat)
    requires
        0 <= i < cs.len(),
        all_level(cs, lv),
        same_level(&*cs[i], &*l),
        same_level(&*cs[i], &*r),
    ensures
        all_level(cs.take(i) + nonempty(l), lv),
        all_level(nonempty(r) + cs.skip(i + 1), lv),
{
    lemma_level_sub(cs, 0, i, lv);
    lemma_level_sub(cs, i + 1, cs.len() as int, lv);
    assert(cs.subrange(0, i) =~= cs.take(i));
    assert(cs.subrange(i + 1, cs.len() as int) =~= cs.skip(i + 1));
    lemma_level_nonempty(&*cs[i], l);
    lemma_level_nonempty(&*cs[i], r);
    lemma_level_add(cs.take(i), nonempty(l), lv);
    lemma_level_add(nonempty(r), cs.skip(i + 1), lv);
}

/// Child `i` cut in two: the runs before and after the cut fit where the node did.
proof fn lemma_split_fits<V>(cs: Seq<N<V>>, i: int, l: N<V>, r: N<V>, m: nat)
    requires
        0 <= i < cs.len(),
        cs.len() <= m,
        forall|j: int| 0 <= j < cs.len() ==> (#[trigger] cs[j]).fits(m),
        no_wider(&*cs[i], &*l),
        no_wider(&*cs[i], &*r),
    ensures
        all_fit(cs.take(i) + nonempty(l), m),
        all_fit(nonempty(r) + cs.skip(i + 1), m),
        (cs.take(i) + nonempty(l)).len() <= m,
        (nonempty(r) + cs.skip(i + 1)).len() <= m,
{
    assert(cs[i].fits(m));
    lemma_fit_sub(cs, 0, i, m);
    lemma_fit_sub(cs, i + 1, cs.len() as int, m);
    assert(cs.subrange(0, i) =~= cs.take(i));
    assert(cs.subrange(i + 1, cs.len() as int) =~= cs.skip(i + 1));
    assert(all_fit(nonempty(l), m));
    assert(all_fit(nonempty(r), m));
    lemma_fit_add(cs.take(i), nonempty(l), m);
    lemma_fit_add(nonempty(r), cs.skip(i + 1), m);
}

/// The two halves of a run of siblings whose entries are sorted.
proof fn lemma_halve_children<V>(
    children: Seq<N<V>>,
    left: Seq<N<V>>,
    right: Seq<N<V>>,
    m: nat,
    l: nat,
)
    requires
        all_fit(children, m),
        all_level(children, l),
        all_wf(children),
        sorted(flat(children)),
        flat(children).len() <= usize::MAX,
        children == left + right,
        left.len() > 0,
        right.len() > 0,
    ensures
        all_wf(left),
        all_wf(right),
        all_fit(left, m),
        all_fit(right, m),
        all_level(left, l),
        all_level(right, l),
        sorted(flat(left)),
        sorted(flat(right)),
        flat(left).len() <= usize::MAX,
        flat(right).len() <= usize::MAX,
        flat(left) + flat(right) == flat(children),
        flat(left).len() > 0,
        flat(right).len() > 0,
{
    lemma_flat_add(left, right);
    lemma_sorted_halves(flat(left), flat(right));
    lemma_all_wf_sub(children, 0, left.len() as int);
    lemma_all_wf_sub(children, left.len() as int, children.len() as int);
    assert(children.subrange(0, left.len() as int) =~= left);
    assert(children.subrange(left.len() as int, children.len() as int) =~= right);
    lemma_flat_nonempty(left);
    lemma_flat_nonempty(right);
    lemma_fit_sub(children, 0, left.len() as int, m);
    lemma_fit_sub(children, left.len() as int, children.len() as int, m);
    lemma_level_sub(children, 0, left.len() as int, l);
    lemma_level_sub(children, left.len() as int, children.len() as int, l);
}

/// A window `lo..hi` of well-formed sorted siblings, and what it adds to the run before it.
proof fn lemma_window<V>(cs: Seq<N<V>>, lo: int, hi: int)
    requires
        all_wf(cs),
        sorted(flat(cs)),
        0 <= lo < hi <= cs.len(),
    ensures
        all_wf(cs.subrange(lo, hi)),
        sorted(flat(cs.subrange(lo, hi))),
        flat(cs.subrange(lo, hi)).len() <= flat(cs).len(),
        flat(cs.subrange(lo, hi)).len() > 0,
        flat(cs.take(hi)) == flat(cs.take(lo)) + flat(cs.subrange(lo, hi)),
{
    lemma_flat_window(cs, lo, hi);
    lemma_sorted_three(flat(cs.take(lo)), flat(cs.subrange(lo, hi)), flat(cs.skip(hi)));
    lemma_all_wf_sub(cs, lo, hi);
    lemma_flat_nonempty(cs.subrange(lo, hi));
}

/// A run with one more node at its end.
proof fn lemma_push_run<V>(prev: Seq<N<V>>, node: N<V>)
    requires
        all_wf(prev),
        node.wf(),
        node.entries().len() > 0,
    ensures
        all_wf(prev.push(node)),
        flat(prev.push(node)) == flat(prev) + node.entries(),
{
    assert(prev.push(node).drop_last() =~= prev);
    assert forall|j: int| 0 <= j < prev.push(node).len() implies (#[trigger] prev.push(node)[j]).wf()
        && prev.push(node)[j].entries().len() > 0 by {
        if j < prev.len() {
            assert(prev.push(node)[j] == prev[j]);
        }
    }
}

/// The live entries of the first `j + 1` children.
proof fn lemma_expir_step<V>(cs: Seq<N<V>>, j: int, now: u64)
    requires
        all_wf(cs),
        0 <= j < cs.len(),
    ensures
        flat(cs.take(j + 1)).filter(live(now)) == flat(cs.take(j)).filter(live(now)) + cs[j].entries().filter(
            live(now),
        ),
        cs[j].wf(),
        cs[j].entries().len() > 0,
{
    assert(cs.take(j + 1).drop_last() =~= cs.take(j));
    Seq::filter_distributes_over_add(flat(cs.take(j)), cs[j].entries(), live(now));
}

/// Two runs side by side.
proof fn lemma_join_runs<V>(a: Seq<N<V>>, b: Seq<N<V>>)
    requires
        all_wf(a),
        all_wf(b),
    ensures
        all_wf(a + b),
        flat(a + b) == flat(a) + flat(b),
{
    lemma_flat_add(a, b);
    lemma_all_wf_add(a, b);
}

/// Groups a run of siblings into nodes of at most `m` children each.
pub(crate) fn chunk_nodes<V>(nodes: &Vec<N<V>>, m: usize, Ghost(l): Ghost<nat>) -> (r: Vec<N<V>>)
    requires
        m >= 2,
        all_wf(nodes@),
        all_fit(nodes@, m as nat),
        all_level(nodes@, l),
        sorted(flat(nodes@)),
        flat(nodes@).len() <= usize::MAX,
    ensures
        all_wf(r@),
        all_fit(r@, m as nat),
        all_level(r@, l + 1),
        flat(r@) == flat(nodes@),
        forall|i: int|
            0 <= i < r@.len() ==> *(#[trigger] r@[i]) is Node && 1 <= r@[i].positions() <= m,
        forall|i: int| 0 <= i < r@.len() - 1 ==> (#[trigger] r@[i]).positions() == m,
        nodes@.len() > m ==> r@.len() < nodes@.len(),
        nodes@.len() <= m ==> r@.len() <= 1,
{
    let ghost cs = nodes@;
    let n = nodes.len();
    let mut out: Vec<N<V>> = Vec::new();
    let mut c: usize = 0;
    while c < n
        invariant
            cs == nodes@,
            n == cs.len(),
            m >= 2,
            all_wf(cs),
            all_fit(cs, m as nat),
            sorted(flat(cs)),
            flat(cs).len() <= usize::MAX,
            c <= n,
            all_wf(out@),
            all_fit(out@, m as nat),
            all_level(cs, l),
            all_level(out@, l + 1),
            flat(out@) == flat(cs.take(c as int)),
            forall|i: int|
                0 <= i < out@.len() ==> *(#[trigger] out@[i]) is Node && 1 <= out@[i].positions()
                    <= m,
            forall|i: int|
                0 <= i < out@.len() && (i < out@.len() - 1 || c < n) ==> (
                #[trigger] out@[i]).positions() == m,
            out@.len() <= c,
            c >= m ==> out@.len() < c,
            c <= m ==> out@.len() <= 1,
            0 < c < n ==> c >= m,
            c == 0 ==> out@.len() == 0,
        decreases n - c,
    {
        let hi = if n - c <= m {
            n
        } else {
            c + m
        };
        let chunk = copy_range(nodes, c, hi);
        proof {
            lemma_window(cs, c as int, hi as int);
        }
        let node = Node::instance(chunk);
        let ghost prev = out@;
        out.push(node);
        proof {
            lemma_window(cs, c as int, hi as int);
            lemma_push_run(prev, node);
            lemma_fit_sub(cs, c as int, hi as int, m as nat);
            assert(node.fits(m as nat));
            assert(all_fit(seq![node], m as nat));
            assert(out@ =~= prev + seq![node]);
            lemma_fit_add(prev, seq![node], m as nat);
            lemma_level_sub(cs, c as int, hi as int, l);
            lemma_instance_level(node, chunk@, l);
            assert(all_level(seq![node], l + 1));
            lemma_level_add(prev, seq![node], l + 1);
            assert forall|j: int| 0 <= j < out@.len() && (j < out@.len() - 1 || hi < n) implies (
            #[trigger] out@[j]).positions() == m by {
                if j < prev.len() {
                    assert(out@[j] == prev[j]);
                }
            }
            assert forall|j: int| 0 <= j < out@.len() implies *(#[trigger] out@[j]) is Node && 1
                <= out@[j].positions() <= m by {
                if j < prev.len() {
                    assert(out@[j] == prev[j]);
                }
            }
        }
        c = hi;
    }
    assert(cs.take(n as int) =~= cs);
    out
}

impl<V> Node<V> {
    pub open spec fn entries(self) -> Seq<Entry<V>> {
        flat(self.children@)
    }

    /// At most `m` children, each of fan-out `m`.
    pub open spec fn fits(&self, m: nat) -> bool
        decreases self,
    {
        &&& self.children@.len() <= m
        &&& forall|i: int| 0 <= i < self.children@.len() ==> (#[trigger] self.children@[i]).fits(m)
    }

    /// The children are balanced, all with as many levels as the first.
    pub open spec fn balanced(&self) -> bool
        decreases self,
    {
        forall|i: int|
            0 <= i < self.children@.len() ==> (#[trigger] self.children@[i]).balanced()
                && self.children@[i].level() == self.children@[0].level()
    }

    /// Children are well formed and non-empty, keys increase across them, and the
    /// cached summaries agree with the entries below.
    pub open spec fn inv(self) -> bool
        decreases self,
    {
        &&& forall|i: int|
            0 <= i < self.children@.len() ==> (#[trigger] self.children@[i]).wf()
                && self.children@[i].entries().len() > 0
        &&& sorted(flat(self.children@))
        &&& self.length == flat(self.children@).len()
        &&& self.ttl == min_expiry(flat(self.children@))
        &&& match self.key {
            Some(it) => flat(self.children@).len() > 0 && *it == flat(self.children@)[0],
            None => flat(self.children@).len() == 0,
        }
    }

    pub fn instance(children: Vec<N<V>>) -> (r: N<V>)
        requires
            all_wf(children@),
            sorted(flat(children@)),
            flat(children@).len() <= usize::MAX,
        ensures
            r.wf(),
            r.entries() == flat(children@),
            *r matches BTreeType::Node(n) && n.children@ == children@,
    {
        let ghost cs = children@;
        let key = if children.len() == 0 {
            None
        } else {
            proof {
                lemma_flat_add(cs.take(1), cs.skip(1));
                lemma_flat_one(cs.take(1));
                assert(cs =~= cs.take(1) + cs.skip(1));
                assert(cs[0].wf() && cs[0].entries().len() > 0);
            }
            match children[0].key() {
                Some(it) => Some(it.clone()),
                None => None,
            }
        };
        let mut ttl: Option<u64> = None;
        let mut length: usize = 0;
        let mut i: usize = 0;
        while i < children.len()
            invariant
                cs == children@,
                all_wf(cs),
                flat(cs).len() <= usize::MAX,
                i <= cs.len(),
                ttl == min_expiry(flat(cs.take(i as int))),
                length == flat(cs.take(i as int)).len(),
            decreases cs.len() - i,
        {
            proof {
                assert(cs.take(i + 1).drop_last() =~= cs.take(i as int));
                lemma_min_expiry_add(flat(cs.take(i as int)), cs[i as int].entries());
                lemma_flat_add(cs.take(i + 1), cs.skip(i + 1));
                assert(cs =~= cs.take(i + 1) + cs.skip(i + 1));
                assert(cs[i as int].wf());
            }
            let t = children[i].ttl();
            ttl = match (ttl, t) {
                (Some(x), Some(y)) => Some(if x <= y { x } else { y }),
                (Some(x), None) => Some(x),
                (None, y) => y,
            };
            length = length + children[i].len();
            i = i + 1;
        }
        assert(cs.take(i as int) =~= cs);
        Arc::new(BTreeType::Node(Node { key, ttl, length, children }))
    }

    /// The child that `k` routes to: the last whose first key is at most `k`, or the first.
    pub fn search_index(&self, k: &u64) -> (r: usize)
        requires
            self.inv(),
            self.children@.len() > 0,
        ensures
            r < self.children@.len(),
            r == 0 || self.children@[r as int].entries()[0].0 <= *k,
            r + 1 < self.children@.len() ==> *k < self.children@[r + 1].entries()[0].0,
    {
        let ghost cs = self.children@;
        let mut lo: usize = 0;
        let mut hi: usize = self.children.len();
        while lo < hi
            invariant
                cs == self.children@,
                self.inv(),
                lo <= hi <= cs.len(),
                forall|j: int| 0 <= j < lo ==> cs[j].entries()[0].0 <= *k,
                forall|j: int| hi <= j < cs.len() ==> cs[j].entries()[0].0 > *k,
            decreases hi - lo,
        {
            let mid = lo + (hi - lo) / 2;
            assert(cs[mid as int].wf() && cs[mid as int].entries().len() > 0);
            let below_or_at = match cmp(self.children[mid].key(), Some(k)) {
                std::cmp::Ordering::Greater => false,
                _ => true,
            };
            if below_or_at {
                assert forall|j: int| 0 <= j < mid + 1 implies cs[j].entries()[0].0 <= *k by {
                    if j < mid {
                        lemma_first_keys(cs, j, mid as int);
                    }
                }
                lo = mid + 1;
            } else {
                assert forall|j: int| mid <= j < cs.len() implies cs[j].entries()[0].0 > *k by {
                    if j > mid {
                        lemma_first_keys(cs, mid as int, j);
                    }
                }
                hi = mid;
            }
        }
        if lo == 0 {
            0
        } else {
            lo - 1
        }
    }

    /// Puts `(k, v, ttl)` into the child that `k` routes to; a node that then holds
    /// `m` children or more splits in two at its middle.
    #[verifier::spinoff_prover]
    pub fn put(&self, m: usize, k: u64, v: V, ttl: Option<u64>) -> (r: PutResult<V>)
        requires
            self.inv(),
            m >= 2,
            self.fits(m as nat),
            self.balanced(),
            self.children@.len() > 0,
            self.entries().len() < usize::MAX,
        ensures
            put_result(r.0@, self.entries(), (k, v, ttl), m as nat),
            all_level(r.0@, BTreeType::Node(*self).level()),
            forall|i: int| 0 <= i < r.0@.len() ==> *(#[trigger] r.0@[i]) is Node,
            r.0@.len() == 1 ==> r.0@[0].positions() < m,
            r.0@.len() == 2 ==> r.0@[0].positions() == m / 2 && r.0@[0].positions()
                + r.0@[1].positions() >= m,
            displaced(self.entries(), k, r.1),
        decreases self,
    {
        let ghost e: Entry<V> = (k, v, ttl);
        let ghost cs = self.children@;
        let index = self.search_index(&k);
        proof {
            lemma_route_key(cs, index as int, k);
            assert(cs[index as int].wf() && cs[index as int].entries().len() > 0);
        }
        assert(decreases_to!(self => self.children@[index as int]));
        let (values, old) = self.children[index].put(m, k, v, ttl);
        let ghost vs = values@;
        let mut children = copy_range(&self.children, 0, index);
        let mut vals = values;
        children.append(&mut vals);
        let count = self.children.len();
        let mut rest = copy_range(&self.children, index + 1, count);
        children.append(&mut rest);
        proof {
            assert(all_level(cs, cs[0].level()));
            lemma_put_children(cs, index as int, vs, e, children@, m as nat, cs[0].level());
        }
        let n = children.len();
        if n < m {
            let node = Self::instance(children);
            let mut nodes: Vec<N<V>> = Vec::new();
            nodes.push(node);
            proof {
                lemma_flat_one(nodes@);
                assert(nodes@[0].fits(m as nat));
                lemma_instance_level(node, children@, cs[0].level());
            }
            return (nodes, old);
        }
        let mid = m / 2;
        let left = copy_range(&children, 0, mid);
        let right = copy_range(&children, mid, n);
        proof {
            assert(children@ =~= left@ + right@);
            lemma_halve_children(children@, left@, right@, m as nat, cs[0].level());
        }
        let l = Self::instance(left);
        let r = Self::instance(right);
        let mut nodes: Vec<N<V>> = Vec::new();
        nodes.push(l);
        nodes.push(r);
        proof {
            lemma_flat_two(nodes@);
            assert(nodes@[0].fits(m as nat));
            assert(nodes@[1].fits(m as nat));
            lemma_instance_level(l, left@, cs[0].level());
            lemma_instance_level(r, right@, cs[0].level());
        }
        (nodes, old)
    }

    pub fn get(&self, k: &u64) -> (r: Option<&V>)
        requires
            self.inv(),
            self.children@.len() > 0,
        ensures
            match r {
                Some(v) => self.entries().filter(at(*k)).len() > 0 && *v == self.entries().filter(
                    at(*k),
                )[0].1,
                None => self.entries().filter(at(*k)).len() == 0,
            },
        decreases self,
    {
        let ghost cs = self.children@;
        let index = self.search_index(k);
        proof {
            lemma_route_key(cs, index as int, *k);
            lemma_at_mid(flat(cs.take(index as int)), cs[index as int].entries(), flat(cs.skip(index + 1)), *k);
            assert(cs[index as int].wf() && cs[index as int].entries().len() > 0);
        }
        assert(decreases_to!(self => self.children@[index as int]));
        self.children[index].get(k)
    }

    /// Removes the item of key `k` from the child it routes to; a child left empty is dropped.
    pub fn remove(&self, k: &u64) -> (r: Option<(N<V>, Item<V>)>)
        requires
            self.inv(),
            self.children@.len() > 0,
        ensures
            match r {
                Some((n, it)) => {
                    &&& n.wf()
                    &&& no_wider(&BTreeType::Node(*self), &*n)
                    &&& (self.balanced() ==> same_level(&BTreeType::Node(*self), &*n))
                    &&& n.entries() == self.entries().filter(other(*k))
                    &&& self.entries().filter(at(*k)) == seq![*it]
                },
                None => self.entries().filter(at(*k)).len() == 0,
            },
        decreases self,
    {
        let ghost cs = self.children@;
        let index = self.search_index(k);
        let ghost a = cs.take(index as int);
        let ghost b = cs.skip(index + 1);
        proof {
            lemma_route_key(cs, index as int, *k);
            lemma_remove_mid(flat(a), cs[index as int].entries(), flat(b), *k);
            assert(cs[index as int].wf() && cs[index as int].entries().len() > 0);
        }
        assert(decreases_to!(self => self.children@[index as int]));
        match self.children[index].remove(k) {
            None => None,
            Some((child, item)) => {
                let mut children = copy_range(&self.children, 0, index);
                let ghost mid: Seq<N<V>> = if child.entries().len() > 0 {
                    seq![child]
                } else {
                    Seq::empty()
                };
                if child.len() > 0 {
                    children.push(child);
                }
                let count = self.children.len();
                let mut rest = copy_range(&self.children, index + 1, count);
                children.append(&mut rest);
                proof {
                    assert(children@ =~= a + mid + b);
                    lemma_flat_add(a + mid, b);
                    lemma_flat_add(a, mid);
                    if mid.len() > 0 {
                        lemma_flat_one(mid);
                    } else {
                        assert(flat(mid) =~= Seq::<Entry<V>>::empty());
                    }
                    assert(flat(children@) =~= flat(a) + cs[index as int].entries().filter(other(*k)) + flat(b));
                    self.entries().lemma_filter_len(other(*k));
                    assert forall|j: int| 0 <= j < children@.len() implies (#[trigger] children@[j]).wf()
                        && children@[j].entries().len() > 0 by {
                        if j < a.len() {
                            assert(children@[j] == cs[j]);
                        } else if j >= a.len() + mid.len() {
                            assert(children@[j] == cs[j - mid.len() + 1]);
                        } else {
                            assert(children@[j] == mid[j - a.len()]);
                        }
                    }
                }
                let node = Self::instance(children);
                proof {
                    assert forall|m: nat| BTreeType::Node(*self).fits(m) implies #[trigger] node.fits(m) by {
                        assert(cs[index as int].fits(m));
                        lemma_fit_sub(cs, 0, index as int, m);
                        lemma_fit_sub(cs, index + 1, cs.len() as int, m);
                        assert(cs.subrange(0, index as int) =~= a);
                        assert(cs.subrange(index + 1, cs.len() as int) =~= b);
                        assert(all_fit(mid, m));
                        lemma_fit_add(a, mid, m);
                        lemma_fit_add(a + mid, b, m);
                    }
                    if self.balanced() {
                        let l = cs[0].level();
                        assert(all_level(cs, l));
                        assert(cs[index as int].balanced() && cs[index as int].level() == l);
                        lemma_level_sub(cs, 0, index as int, l);
                        lemma_level_sub(cs, index + 1, cs.len() as int, l);
                        assert(cs.subrange(0, index as int) =~= a);
                        assert(cs.subrange(index + 1, cs.len() as int) =~= b);
                        lemma_level_nonempty(&*cs[index as int], child);
                        assert(mid == nonempty(child));
                        lemma_level_add(a, mid, l);
                        lemma_level_add(a + mid, b, l);
                        if children@.len() > 0 {
                            lemma_instance_level(node, children@, l);
                        }
                    }
                }
                Some((node, item))
            },
        }
    }

    /// Splits at `k`: the entries below `k`, and those from `k` on.
    #[verifier::spinoff_prover]
    pub fn split_off(&self, k: &u64) -> (r: (N<V>, N<V>))
        requires
            self.inv(),
            self.children@.len() > 0,
        ensures
            r.0.wf(),
            r.1.wf(),
            no_wider(&BTreeType::Node(*self), &*r.0),
            no_wider(&BTreeType::Node(*self), &*r.1),
            self.balanced() ==> same_level(&BTreeType::Node(*self), &*r.0) && same_level(
                &BTreeType::Node(*self),
                &*r.1,
            ),
            r.0.entries() == self.entries().filter(below(*k)),
            r.1.entries() == self.entries().filter(at_least(*k)),
        decreases self,
    {
        let ghost cs = self.children@;
        let index = self.search_index(k);
        proof {
            assert(cs[index as int].wf() && cs[index as int].entries().len() > 0);
        }
        assert(decreases_to!(self => self.children@[index as int]));
        let (l, r) = self.children[index].split_off(k);
        let mut left = copy_range(&self.children, 0, index);
        if l.len() > 0 {
            left.push(l);
        }
        let mut right: Vec<N<V>> = Vec::new();
        if r.len() > 0 {
            right.push(r);
        }
        let count = self.children.len();
        let mut rest = copy_range(&self.children, index + 1, count);
        right.append(&mut rest);
        proof {
            assert(left@ =~= cs.take(index as int) + nonempty(l));
            assert(right@ =~= nonempty(r) + cs.skip(index + 1));
            lemma_split_children(cs, index as int, *k, l, r);
        }
        let ln = Self::instance(left);
        let rn = Self::instance(right);
        proof {
            assert forall|m: nat| BTreeType::Node(*self).fits(m) implies #[trigger] ln.fits(m) by {
                lemma_split_fits(cs, index as int, l, r, m);
            }
            assert forall|m: nat| BTreeType::Node(*self).fits(m) implies #[trigger] rn.fits(m) by {
                lemma_split_fits(cs, index as int, l, r, m);
            }
            if self.balanced() {
                let lv = cs[0].level();
                assert(all_level(cs, lv));
                lemma_split_levels(cs, index as int, l, r, lv);
                if left@.len() > 0 {
                    lemma_instance_level(ln, left@, lv);
                }
                if right@.len() > 0 {
                    lemma_instance_level(rn, right@, lv);
                }
            }
        }
        (ln, rn)
    }

    /// The entries that are live at `now`, or `None` where all of them are. The cached
    /// least expiry spares the walk where nothing below has expired.
    pub fn expir(&self, now: u64) -> (r: Option<N<V>>)
        requires
            self.inv(),
        ensures
            match r {
                Some(n) => n.wf() && no_wider(&BTreeType::Node(*self), &*n) && (self.balanced()
                    ==> same_level(&BTreeType::Node(*self), &*n)) && n.entries()
                    == self.entries().filter(live(now)),
                None => self.entries().filter(live(now)) == self.entries(),
            },
            r is None <==> match self.ttl {
                Some(t) => t >= now,
                None => true,
            },
        decreases self,
    {
        let stale = match self.ttl {
            Some(t) => t < now,
            None => false,
        };
        if !stale {
            proof {
                lemma_min_expiry_live(self.entries(), now);
            }
            return None;
        }
        let ghost cs = self.children@;
        let mut children: Vec<N<V>> = Vec::new();
        let mut j: usize = 0;
        while j < self.children.len()
            invariant
                cs == self.children@,
                self.inv(),
                j <= cs.len(),
                all_wf(children@),
                flat(children@) == flat(cs.take(j as int)).filter(live(now)),
                children@.len() <= j,
                forall|m: nat| BTreeType::Node(*self).fits(m) ==> #[trigger] all_fit(children@, m),
                self.balanced() ==> all_level(children@, cs[0].level()),
            decreases cs.len() - j,
        {
            proof {
                lemma_expir_step(cs, j as int, now);
            }
            assert(decreases_to!(self => self.children@[j as int]));
            let ghost before_push = children@;
            match self.children[j].expir(now) {
                Some(c) => {
                    if c.len() > 0 {
                        children.push(c);
                        proof {
                            lemma_push_run(before_push, c);
                            assert forall|m: nat| BTreeType::Node(*self).fits(m) implies #[trigger] all_fit(children@, m) by {
                                assert(cs[j as int].fits(m));
                                assert(all_fit(before_push, m));
                                assert(children@ =~= before_push + seq![c]);
                                assert(all_fit(seq![c], m));
                                lemma_fit_add(before_push, seq![c], m);
                            }
                            if self.balanced() {
                                assert(cs[j as int].balanced() && cs[j as int].level() == cs[0].level());
                                assert(all_level(seq![c], cs[0].level()));
                                lemma_level_add(before_push, seq![c], cs[0].level());
                            }
                        }
                    } else {
                        assert(flat(before_push) + c.entries() =~= flat(before_push));
                    }
                },
                None => {
                    children.push(self.children[j].clone());
                    proof {
                        lemma_push_run(before_push, cs[j as int]);
                        assert forall|m: nat| BTreeType::Node(*self).fits(m) implies #[trigger] all_fit(children@, m) by {
                            assert(cs[j as int].fits(m));
                            assert(all_fit(before_push, m));
                            assert(children@ =~= before_push + seq![cs[j as int]]);
                            assert(all_fit(seq![cs[j as int]], m));
                            lemma_fit_add(before_push, seq![cs[j as int]], m);
                        }
                        if self.balanced() {
                            assert(cs[j as int].balanced() && cs[j as int].level() == cs[0].level());
                            assert(all_level(seq![cs[j as int]], cs[0].level()));
                            lemma_level_add(before_push, seq![cs[j as int]], cs[0].level());
                        }
                    }
                },
            }
            j = j + 1;
        }
        proof {
            assert(cs.take(j as int) =~= cs);
            lemma_filter_sorted(self.entries(), live(now));
            self.entries().lemma_filter_len(live(now));
        }
        let node = Self::instance(children);
        proof {
            assert forall|m: nat| BTreeType::Node(*self).fits(m) implies #[trigger] node.fits(m) by {
                assert(all_fit(children@, m));
            }
            if self.balanced() && children@.len() > 0 {
                lemma_instance_level(node, children@, cs[0].level());
            }
        }
        Some(node)
    }

    #[verifier::rlimit(50)]
    /// Applies sorted actions: each run of actions goes to the child it routes to,
    /// bounded by the first key of the next child; the children are then regrouped
    /// into nodes of at most `m`.
    pub fn write(&self, m: usize, actions: Vec<(u64, Action<V>)>) -> (r: Vec<N<V>>)
        requires
            self.inv(),
            m >= 2,
            self.fits(m as nat),
            self.balanced(),
            self.children@.len() > 0,
            acts_sorted(actions@),
            self.entries().len() + actions@.len() <= usize::MAX,
        ensures
            all_wf(r@),
            all_fit(r@, m as nat),
            all_level(r@, BTreeType::Node(*self).level()),
            flat(r@) == merge(self.entries(), actions@),
            forall|i: int|
                0 <= i < r@.len() ==> *(#[trigger] r@[i]) is Node && 1 <= r@[i].positions() <= m,
            forall|i: int| 0 <= i < r@.len() - 1 ==> (#[trigger] r@[i]).positions() == m,
        decreases self,
    {
        let ghost cs = self.children@;
        let ghost s = self.entries();
        let ghost a0 = actions@;
        let count = self.children.len();
        let mut actions = actions;
        let mut children: Vec<N<V>> = Vec::new();
        let mut start: usize = 0;
        let mut done = false;
        proof {
            assert(cs.skip(0) =~= cs);
            assert(flat(children@) =~= Seq::<Entry<V>>::empty());
            assert(flat(children@) + merge(s, a0) =~= merge(s, a0));
        }
        while !done
            invariant
                cs == self.children@,
                s == flat(cs),
                self.inv(),
                count == cs.len(),
                count > 0,
                m >= 2,
                s.len() + a0.len() <= usize::MAX,
                acts_sorted(actions@),
                actions@.len() <= a0.len(),
                self.fits(m as nat),
                self.balanced(),
                all_level(cs, cs[0].level()),
                all_wf(children@),
                all_fit(children@, m as nat),
                all_level(children@, cs[0].level()),
                !done ==> start < count,
                !done ==> flat(children@) + merge(flat(cs.skip(start as int)), actions@) == merge(s, a0),
                done ==> flat(children@) == merge(s, a0),
                !done && start > 0 ==> forall|i: int|
                    0 <= i < actions@.len() ==> cs[start as int].entries()[0].0 <= (
                    #[trigger] actions@[i]).0,
            decreases 2 * (count - start) + if done {
                0int
            } else {
                1int
            },
        {
            let ghost prev = children@;
            if actions.len() == 0 {
                let mut rest = copy_range(&self.children, start, count);
                children.append(&mut rest);
                proof {
                    assert(cs.subrange(start as int, count as int) =~= cs.skip(start as int));
                    lemma_all_wf_sub(cs, start as int, count as int);
                    lemma_join_runs(prev, cs.skip(start as int));
                    lemma_fit_sub(cs, start as int, count as int, m as nat);
                    lemma_fit_add(prev, cs.skip(start as int), m as nat);
                    lemma_level_sub(cs, start as int, count as int, cs[0].level());
                    lemma_level_add(prev, cs.skip(start as int), cs[0].level());
                }
                done = true;
            } else {
                let k0 = actions[0].0;
                let index = self.search_index(&k0);
                proof {
                    if index < start {
                        lemma_first_keys(cs, index + 1, start as int);
                        assert(false);
                    }
                    lemma_write_skip(cs, start as int, index as int, actions@);
                }
                let mut skipped = copy_range(&self.children, start, index);
                children.append(&mut skipped);
                proof {
                    lemma_all_wf_sub(cs, start as int, index as int);
                    lemma_join_runs(prev, cs.subrange(start as int, index as int));
                    lemma_fit_sub(cs, start as int, index as int, m as nat);
                    lemma_fit_add(prev, cs.subrange(start as int, index as int), m as nat);
                    lemma_level_sub(cs, start as int, index as int, cs[0].level());
                    lemma_level_add(prev, cs.subrange(start as int, index as int), cs[0].level());
                    assert(cs[index as int].balanced() && cs[index as int].level() == cs[0].level());
                }
                let ghost prev2 = children@;
                assert(decreases_to!(self => self.children@[index as int]));
                if index + 1 < count {
                    let bound = match self.children[index + 1].key() {
                        Some(it) => it.0,
                        None => 0,
                    };
                    proof {
                        assert(cs[index + 1].wf() && cs[index + 1].entries().len() > 0);
                    }
                    let mut cut: usize = 0;
                    while cut < actions.len() && actions[cut].0 < bound
                        invariant
                            cut <= actions@.len(),
                            acts_sorted(actions@),
                            forall|i: int| 0 <= i < cut ==> (#[trigger] actions@[i]).0 < bound,
                        decreases actions@.len() - cut,
                    {
                        cut = cut + 1;
                    }
                    let ghost whole = actions@;
                    let rest = actions.split_off(cut);
                    let part = actions;
                    proof {
                        assert(whole =~= part@ + rest@);
                        lemma_write_cut(cs, index as int, whole, part@, rest@, bound);
                        lemma_route(cs, index as int);
                        assert(cs[index as int].entries().len() <= s.len());
                        assert(part@.len() <= a0.len());
                    }
                    let mut nodes = self.children[index].write(m, part);
                    let ghost nv = nodes@;
                    children.append(&mut nodes);
                    proof {
                        lemma_join_runs(prev2, nv);
                        lemma_fit_add(prev2, nv, m as nat);
                        lemma_level_add(prev2, nv, cs[0].level());
                        assert(flat(children@) + merge(flat(cs.skip(index + 1)), rest@) =~= merge(s, a0));
                        assert(cs[index + 1].entries()[0].0 == bound);
                    }
                    start = index + 1;
                    actions = rest;
                } else {
                    let ghost whole = actions@;
                    let part = actions.split_off(0);
                    proof {
                        assert(part@ =~= whole);
                        assert(cs.skip(index as int) =~= seq![cs[index as int]]);
                        lemma_flat_one(cs.skip(index as int));
                        lemma_route(cs, index as int);
                    }
                    let mut nodes = self.children[index].write(m, part);
                    let ghost nv = nodes@;
                    children.append(&mut nodes);
                    proof {
                        lemma_join_runs(prev2, nv);
                        lemma_fit_add(prev2, nv, m as nat);
                        lemma_level_add(prev2, nv, cs[0].level());
                        let sub = flat(cs.subrange(start as int, index as int));
                        assert(flat(prev2) == flat(prev) + sub);
                        assert(flat(children@) =~= flat(prev) + (sub + merge(
                            cs[index as int].entries(),
                            whole,
                        )));
                    }
                    done = true;
                }
            }
        }
        proof {
            lemma_merge_facts(s, a0, 0);
        }
        chunk_nodes(&children, m, Ghost(cs[0].level()))
    }

    pub fn len(&self) -> (r: usize)
        requires
            self.inv(),
        ensures
            r == self.entries().len(),
    {
        self.length
    }

    pub fn ttl(&self) -> (r: Option<u64>)
        requires
            self.inv(),
        ensures
            r == min_expiry(self.entries()),
    {
        self.ttl
    }
}

} // verus!
