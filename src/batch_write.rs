//! Batches of puts and deletes, kept in key order and applied to a tree at once.

use std::collections::BTreeMap;
use std::time::Duration;
use vstd::prelude::*;

use crate::clock::{duration_millis, expiry_after, now_millis};
use crate::model::acts_sorted;

verus! {

broadcast use vstd::laws_cmp::group_laws_cmp;

/// What a batch does to one key.
pub enum Action<V> {
    /// Put a value, with the instant it expires at, if any.
    Put(V, Option<u64>),
    Delete,
}

impl<V> Action<V> {
    pub(crate) fn value(self) -> (r: (V, Option<u64>))
        requires
            self is Put,
        ensures
            self == Action::Put(r.0, r.1),
    {
        match self {
            Action::Put(v, t) => (v, t),
            Action::Delete => vstd::pervasive::unreached(),
        }
    }
}

/// A key-ordered map of pending actions; a later action on a key overrides an earlier one.
pub struct BatchWrite<V> {
    inner: BTreeMap<u64, Action<V>>,
}

impl<V> View for BatchWrite<V> {
    type V = Map<u64, Action<V>>;

    closed spec fn view(&self) -> Map<u64, Action<V>> {
        self.inner@
    }
}

impl<V> Default for BatchWrite<V> {
    fn default() -> (r: Self)
        ensures
            r@ == Map::<u64, Action<V>>::empty(),
    {
        BatchWrite { inner: BTreeMap::new() }
    }
}

impl<V> BatchWrite<V> {
    pub fn new() -> (r: Self)
        ensures
            r@ == Map::<u64, Action<V>>::empty(),
    {
        BatchWrite { inner: BTreeMap::new() }
    }

    pub fn put(&mut self, key: u64, value: V)
        ensures
            final(self)@ == old(self)@.insert(key, Action::Put(value, None)),
    {
        self.inner.insert(key, Action::Put(value, None));
    }

    /// Puts `value` under `key`, to expire `ttl` from now.
    pub fn put_ttl(&mut self, key: u64, value: V, ttl: Duration)
        ensures
            exists|t: u64| final(self)@ == old(self)@.insert(key, Action::Put(value, Some(t))),
    {
        let now = now_millis();
        let d = duration_millis(ttl);
        let expiry = expiry_after(now, d);
        let ghost put = Action::Put(value, Some(expiry));
        self.inner.insert(key, Action::Put(value, Some(expiry)));
        assert(self@ == old(self)@.insert(key, put));
    }

    /// Puts `value` under `key`, to expire at the instant `expiry` (in milliseconds).
    pub fn put_with_expiry(&mut self, key: u64, value: V, expiry: u64)
        ensures
            final(self)@ == old(self)@.insert(key, Action::Put(value, Some(expiry))),
    {
        self.inner.insert(key, Action::Put(value, Some(expiry)));
    }

    pub fn delete(&mut self, key: u64)
        ensures
            final(self)@ == old(self)@.insert(key, Action::Delete),
    {
        self.inner.insert(key, Action::Delete);
    }

    pub fn into_map(self) -> (r: BTreeMap<u64, Action<V>>)
        ensures
            r@ == self@,
    {
        self.inner
    }
}

/// The actions of `m` in ascending key order.
///
/// Relies on `BTreeMap::into_iter`, whose entries come sorted by key.
#[verifier::external_body]
pub(crate) fn sorted_actions<V>(m: BTreeMap<u64, Action<V>>) -> (r: Vec<(u64, Action<V>)>)
    ensures
        acts_sorted(r@),
        r@.len() == m@.len(),
        forall|i: int| 0 <= i < r@.len() ==> #[trigger] m@.contains_key(r@[i].0) && m@[r@[i].0] == r@[i].1,
        forall|k: u64| #[trigger] m@.contains_key(k) ==> exists|i: int| 0 <= i < r@.len() && r@[i].0 == k,
{
    m.into_iter().collect()
}

} // verus!
