//! A tree whose values carry a time to live and a time to idle, checked on read.

use std::sync::atomic::{AtomicI64, Ordering};
use vstd::prelude::*;

use crate::batch_write::BatchWrite;
use crate::btree::BTree;
use crate::clock::now_millis;
use crate::cursor::Iterator;
use crate::model::{apply, put_seq};
use crate::tree::{Entry, Item};

verus! {

/// Whether an entry whose live and idle deadlines are `live` and `idle` has expired at `now`.
pub fn expired(now: i64, live: i64, idle: i64) -> (r: bool)
    ensures
        r == (now > live || now > idle),
{
    now > live || now > idle
}

/// The deadline `ttl` after `now`, or none (`i64::MAX`) without a `ttl`.
pub fn deadline(now: i64, ttl: Option<i64>) -> (r: i64)
    ensures
        r == match ttl {
            Some(t) => if now + t > i64::MAX {
                i64::MAX as int
            } else if now + t < i64::MIN {
                i64::MIN as int
            } else {
                now + t
            },
            None => i64::MAX as int,
        },
{
    match ttl {
        Some(t) => {
            if t > 0 && now > i64::MAX - t {
                i64::MAX
            } else if t < 0 && now < i64::MIN - t {
                i64::MIN
            } else {
                now + t
            }
        },
        None => i64::MAX,
    }
}

/// The deadlines of one entry, in milliseconds; reads may move the idle one on.
pub struct TTL {
    live: AtomicI64,
    idle: AtomicI64,
}

impl TTL {
    pub fn new(live: i64, idle: i64) -> (r: Self) {
        TTL { live: AtomicI64::new(live), idle: AtomicI64::new(idle) }
    }

    pub fn live(&self) -> i64 {
        self.live.load(Ordering::Relaxed)
    }

    pub fn idle(&self) -> i64 {
        self.idle.load(Ordering::Relaxed)
    }

    pub fn set_live(&self, live: i64) {
        self.live.store(live, Ordering::Relaxed);
    }

    pub fn set_idle(&self, idle: i64) {
        self.idle.store(idle, Ordering::Relaxed);
    }

    /// Whether either deadline lies before `now`.
    pub fn is_expir(&self, now: i64) -> bool {
        let live = self.live();
        let idle = self.idle();
        expired(now, live, idle)
    }
}

/// A tree whose values carry deadlines set from a time to live and a time to idle.
pub struct TTLBTree<V> {
    inner: BTree<(V, TTL)>,
    time_to_live: Option<i64>,
    time_to_idle: Option<i64>,
    max_capacity: Option<usize>,
    now: Option<i64>,
}

impl<V> TTLBTree<V> {
    pub closed spec fn wf(&self) -> bool {
        self.inner.wf()
    }

    /// The entries in ascending key order; each value carries its deadlines.
    pub closed spec fn entries(&self) -> Seq<Entry<(V, TTL)>> {
        self.inner.entries()
    }

    pub closed spec fn view(&self) -> Map<u64, Entry<(V, TTL)>> {
        self.inner@
    }

    pub closed spec fn time_to_live_spec(&self) -> Option<i64> {
        self.time_to_live
    }

    pub closed spec fn time_to_idle_spec(&self) -> Option<i64> {
        self.time_to_idle
    }

    pub fn new(m: usize) -> (r: Self)
        requires
            m >= 4,
        ensures
            r.wf(),
            r.entries().len() == 0,
            r.time_to_live_spec() is None,
            r.time_to_idle_spec() is None,
    {
        TTLBTree {
            inner: BTree::new(m),
            time_to_live: None,
            time_to_idle: None,
            max_capacity: None,
            now: None,
        }
    }

    pub fn set_time_to_live(&mut self, ttl: i64)
        requires
            old(self).wf(),
        ensures
            final(self).wf(),
            final(self).entries() == old(self).entries(),
            final(self).time_to_live_spec() == Some(ttl),
            final(self).time_to_idle_spec() == old(self).time_to_idle_spec(),
    {
        self.time_to_live = Some(ttl);
    }

    pub fn set_time_to_idle(&mut self, ttl: i64)
        requires
            old(self).wf(),
        ensures
            final(self).wf(),
            final(self).entries() == old(self).entries(),
            final(self).time_to_live_spec() == old(self).time_to_live_spec(),
            final(self).time_to_idle_spec() == Some(ttl),
    {
        self.time_to_idle = Some(ttl);
    }

    pub fn set_max_capacity(&mut self, capacity: usize)
        requires
            old(self).wf(),
        ensures
            final(self).wf(),
            final(self).entries() == old(self).entries(),
            final(self).time_to_live_spec() == old(self).time_to_live_spec(),
            final(self).time_to_idle_spec() == old(self).time_to_idle_spec(),
    {
        self.max_capacity = Some(capacity);
    }

    fn mk_ttl(&self) -> TTL {
        let now = self.now();
        let live = deadline(now, self.time_to_live);
        let idle = deadline(now, self.time_to_idle);
        TTL::new(live, idle)
    }

    fn now(&self) -> i64 {
        match self.now {
            Some(t) => t,
            None => {
                let now = now_millis();
                if now > i64::MAX as u64 {
                    i64::MAX
                } else {
                    now as i64
                }
            },
        }
    }

    /// Puts `value` under `key` with fresh deadlines; hands back the item it replaced.
    pub fn put(&mut self, key: u64, value: V) -> (r: Option<Item<(V, TTL)>>)
        requires
            old(self).wf(),
            old(self).entries().len() < usize::MAX,
        ensures
            final(self).wf(),
            exists|t: TTL| final(self).entries() == put_seq(old(self).entries(), (key, (value, t), None)),
            match r {
                Some(it) => old(self).view().contains_key(key) && *it == old(self).view()[key],
                None => !old(self).view().contains_key(key),
            },
    {
        let ttl = self.mk_ttl();
        let ghost t = ttl;
        let r = self.inner.put(key, (value, ttl));
        assert(self.entries() == put_seq(old(self).entries(), (key, (value, t), None)));
        r
    }

    pub fn remove(&mut self, key: &u64) -> (r: Option<Item<(V, TTL)>>)
        requires
            old(self).wf(),
        ensures
            final(self).wf(),
            final(self).view() == old(self).view().remove(*key),
            match r {
                Some(it) => old(self).view().contains_key(*key) && *it == old(self).view()[*key],
                None => !old(self).view().contains_key(*key),
            },
    {
        self.inner.remove(key)
    }

    pub fn write(&mut self, batch_write: BatchWrite<(V, TTL)>)
        requires
            old(self).wf(),
            old(self).entries().len() + batch_write@.len() <= usize::MAX,
        ensures
            final(self).wf(),
            final(self).view() == apply(old(self).view(), batch_write@),
    {
        self.inner.write(batch_write)
    }

    /// The value under `key`, unless its deadlines have passed; a read moves the idle
    /// deadline on by the time to idle.
    pub fn get(&self, key: &u64) -> (r: Option<&V>)
        requires
            self.wf(),
        ensures
            r matches Some(v) ==> self.view().contains_key(*key) && *v == self.view()[*key].1.0,
            !self.view().contains_key(*key) ==> r is None,
    {
        match self.inner.get(key) {
            Some(pair) => {
                let now = self.now();
                if pair.1.is_expir(now) {
                    return None;
                }
                match self.time_to_idle {
                    Some(v) => pair.1.set_idle(deadline(now, Some(v))),
                    None => {},
                }
                Some(&pair.0)
            },
            None => None,
        }
    }

    /// The value under `key`, and whether its deadlines have passed.
    pub fn get_with_expir(&self, key: &u64) -> (r: Option<(&V, bool)>)
        requires
            self.wf(),
        ensures
            match r {
                Some((v, _)) => self.view().contains_key(*key) && *v == self.view()[*key].1.0,
                None => !self.view().contains_key(*key),
            },
    {
        match self.inner.get(key) {
            Some(pair) => {
                let now = self.now();
                Some((&pair.0, pair.1.is_expir(now)))
            },
            None => None,
        }
    }

    pub fn iter(&self) -> (r: Iterator<(V, TTL)>)
        requires
            self.wf(),
        ensures
            r.valid(),
            !r.done(),
            r.entries() == self.entries(),
            r.next_index() == 0,
    {
        self.inner.iter()
    }
}

} // verus!
