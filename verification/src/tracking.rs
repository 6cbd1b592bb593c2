//! Effect-owned collections that remove by identity, not by value.
use crate::error::{CordisError, ErrorModel};
use crate::id::{EffectId, IdSource, TrackingId};
use vstd::prelude::*;
use vstd::std_specs::cmp::PartialEqSpec;

verus! {

/// Ordered registrations.
#[derive(Debug)]
pub struct TrackedList<T> {
    pub values: Vec<(TrackingId, T)>,
}

/// Registration order is identifier order.
pub open spec fn list_in_order<T>(values: Seq<(TrackingId, T)>) -> bool {
    forall|i: int, j: int|
        0 <= i < j < values.len() ==> (#[trigger] values[i]).0.0 < (#[trigger] values[j]).0.0
}

/// All identifiers are below `bound`.
pub open spec fn list_below<T>(values: Seq<(TrackingId, T)>, bound: u64) -> bool {
    forall|i: int| 0 <= i < values.len() ==> (#[trigger] values[i]).0.0 < bound
}

/// `after` is `before` without the registration `id`, everything else as it was.
pub open spec fn list_without<T>(
    before: Seq<(TrackingId, T)>,
    after: Seq<(TrackingId, T)>,
    id: TrackingId,
) -> bool {
    ||| after == before && forall|i: int| 0 <= i < before.len() ==> (#[trigger] before[i]).0 != id
    ||| exists|i: int|
        0 <= i < before.len() && (#[trigger] before[i]).0 == id && after == before.remove(i)
}

impl<T> TrackedList<T> {
    pub fn new() -> (r: TrackedList<T>)
        ensures
            r.values@.len() == 0,
            list_in_order(r.values@),
    {
        TrackedList { values: Vec::new() }
    }

    /// Inserts a value owned by `effect`. Refused once that effect is being disposed.
    pub fn insert(&mut self, ids: &mut IdSource, effect: EffectId, armed: bool, value: T) -> (r:
        Result<TrackingId, CordisError>)
        requires
            list_in_order(old(self).values@),
            list_below(old(self).values@, old(ids).next),
            old(ids).next < u64::MAX,
        ensures
            list_in_order(final(self).values@),
            list_below(final(self).values@, final(ids).next),
            final(ids).next == old(ids).next + 1,
            match r {
                Ok(id) => armed && id.0 == old(ids).next && final(self).values@
                    == old(self).values@.push((id, value)),
                Err(error) => !armed && error@ == (ErrorModel::InactiveEffect { effect })
                    && final(self).values@ == old(self).values@,
            },
    {
        let id = TrackingId::next(ids);
        if !armed {
            return Err(CordisError::InactiveEffect { effect });
        }
        self.values.push((id, value));
        Ok(id)
    }

    /// Removes exactly the registration `id`.
    pub fn remove(&mut self, id: TrackingId)
        requires
            list_in_order(old(self).values@),
        ensures
            list_without(old(self).values@, final(self).values@, id),
            list_in_order(final(self).values@),
    {
        let ghost before = self.values@;
        let mut i: usize = 0;
        while i < self.values.len()
            invariant
                self.values@ == before,
                before == old(self).values@,
                list_in_order(before),
                i <= self.values.len(),
                forall|k: int| 0 <= k < i ==> (#[trigger] before[k]).0 != id,
            decreases self.values.len() - i,
        {
            if self.values[i].0.0 == id.0 {
                let _ = self.values.remove(i);
                proof {
                    let after = self.values@;
                    assert(before[i as int].0 == id);
                    assert(after == before.remove(i as int));
                    assert forall|a: int, b: int| 0 <= a < b < after.len() implies (
                    #[trigger] after[a]).0.0 < (#[trigger] after[b]).0.0 by {
                        let p = if a < i {
                            a
                        } else {
                            a + 1
                        };
                        let q = if b < i {
                            b
                        } else {
                            b + 1
                        };
                        assert(after[a] == before[p] && after[b] == before[q]);
                    }
                }
                return;
            }
            i = i + 1;
        }
    }

    /// Every registration, in order.
    pub fn snapshot(&self) -> (r: &Vec<(TrackingId, T)>)
        ensures
            r@ == self.values@,
    {
        &self.values
    }

    pub fn len(&self) -> (r: usize)
        ensures
            r == self.values@.len(),
    {
        self.values.len()
    }

    pub fn is_empty(&self) -> (r: bool)
        ensures
            r == (self.values@.len() == 0),
    {
        self.values.len() == 0
    }
}

/// Keyed registrations that allow equal keys.
#[derive(Debug)]
pub struct TrackedMap<K, V> {
    pub values: Vec<(TrackingId, (K, V))>,
}

/// The positions among the first `n` registered under `key`, in order.
pub open spec fn keyed<K: PartialEqSpec, V>(
    values: Seq<(TrackingId, (K, V))>,
    key: K,
    n: nat,
) -> Seq<int>
    decreases n,
{
    if n == 0 {
        Seq::empty()
    } else {
        let before = keyed(values, key, (n - 1) as nat);
        if values[n - 1].1.0.eq_spec(&key) {
            before.push(n - 1)
        } else {
            before
        }
    }
}

impl<K: PartialEqSpec, V> TrackedMap<K, V> {
    pub fn new() -> (r: TrackedMap<K, V>)
        ensures
            r.values@.len() == 0,
            list_in_order(r.values@),
    {
        TrackedMap { values: Vec::new() }
    }

    /// Inserts one keyed registration owned by `effect`.
    pub fn insert(&mut self, ids: &mut IdSource, effect: EffectId, armed: bool, key: K, value: V) -> (r:
        Result<TrackingId, CordisError>)
        requires
            list_in_order(old(self).values@),
            list_below(old(self).values@, old(ids).next),
            old(ids).next < u64::MAX,
        ensures
            list_in_order(final(self).values@),
            list_below(final(self).values@, final(ids).next),
            final(ids).next == old(ids).next + 1,
            match r {
                Ok(id) => armed && id.0 == old(ids).next && final(self).values@
                    == old(self).values@.push((id, (key, value))),
                Err(error) => !armed && error@ == (ErrorModel::InactiveEffect { effect })
                    && final(self).values@ == old(self).values@,
            },
    {
        let id = TrackingId::next(ids);
        if !armed {
            return Err(CordisError::InactiveEffect { effect });
        }
        self.values.push((id, (key, value)));
        Ok(id)
    }

    /// Removes exactly the registration `id`, whatever else its key holds.
    pub fn remove(&mut self, id: TrackingId)
        requires
            list_in_order(old(self).values@),
        ensures
            list_without(old(self).values@, final(self).values@, id),
            list_in_order(final(self).values@),
    {
        let mut list = TrackedList { values: Vec::new() };
        std::mem::swap(&mut self.values, &mut list.values);
        list.remove(id);
        std::mem::swap(&mut self.values, &mut list.values);
    }

    /// The registrations under `key`, in order.
    pub fn snapshot(&self, key: &K) -> (r: Vec<(TrackingId, &V)>)
        requires
            K::obeys_eq_spec(),
        ensures
            r@.len() == keyed(self.values@, *key, self.values@.len()).len(),
            forall|k: int|
                0 <= k < r@.len() ==> {
                    let at = keyed(self.values@, *key, self.values@.len())[k];
                    (#[trigger] r@[k]).0 == self.values@[at].0 && *r@[k].1 == self.values@[at].1.1
                },
    {
        let mut out: Vec<(TrackingId, &V)> = Vec::new();
        let mut i: usize = 0;
        while i < self.values.len()
            invariant
                K::obeys_eq_spec(),
                i <= self.values.len(),
                out@.len() == keyed(self.values@, *key, i as nat).len(),
                forall|k: int|
                    0 <= k < out@.len() ==> {
                        let at = keyed(self.values@, *key, i as nat)[k];
                        (#[trigger] out@[k]).0 == self.values@[at].0 && *out@[k].1
                            == self.values@[at].1.1
                    },
            decreases self.values.len() - i,
        {
            if self.values[i].1.0 == *key {
                out.push((self.values[i].0, &self.values[i].1.1));
            }
            i = i + 1;
        }
        out
    }
}

/// Removing a registration takes nothing else with it, even when an equal value is registered.
pub proof fn removal_is_exact<T>(
    before: Seq<(TrackingId, T)>,
    after: Seq<(TrackingId, T)>,
    id: TrackingId,
    other: int,
)
    requires
        list_in_order(before),
        list_without(before, after, id),
        0 <= other < before.len(),
        before[other].0 != id,
    ensures
        after.contains(before[other]),
{
    if after == before {
        assert(after[other] == before[other]);
    } else {
        let i = choose|i: int|
            0 <= i < before.len() && (#[trigger] before[i]).0 == id && after == before.remove(i);
        if other < i {
            assert(after[other] == before[other]);
        } else {
            assert(after[other - 1] == before[other]);
        }
    }
}

} // verus!
