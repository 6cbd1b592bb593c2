//! What merging one JSON value into another leaves of both.
use crate::conversion::{keys_differ, set_members_are_found};
use crate::value::{
    key_position, key_position_facts, key_position_is, member, merged, merged_members, with_member,
    JsonModel,
};
use vstd::prelude::*;

verus! {

/// The members have the key.
pub open spec fn has_key(members: Seq<(Seq<char>, JsonModel)>, key: Seq<char>) -> bool {
    exists|p: int| 0 <= p < members.len() && (#[trigger] members[p]).0 == key
}

/// The member with a key is the one that is looked up.
pub proof fn looked_up(members: Seq<(Seq<char>, JsonModel)>, key: Seq<char>)
    requires
        keys_differ(members),
    ensures
        member(members, key) is Some <==> has_key(members, key),
        forall|v: JsonModel| #[trigger]
            members.contains((key, v)) <==> member(members, key) == Some(v),
{
    key_position_facts(members, key);
    let i = key_position(members, key);
    if has_key(members, key) {
        let p = choose|p: int| 0 <= p < members.len() && (#[trigger] members[p]).0 == key;
        assert(i <= p);
    }
    if i < members.len() {
        assert(members[i].0 == key);
    }
    assert forall|v: JsonModel| #[trigger] members.contains((key, v)) <==> member(members, key)
        == Some(v) by {
        if members.contains((key, v)) {
            let p = choose|p: int| 0 <= p < members.len() && members[p] == (key, v);
            assert forall|j: int| 0 <= j < p implies (#[trigger] members[j]).0 != key by {
                assert(members[j].0 != members[p].0);
            }
            key_position_is(members, key, p);
        }
        if member(members, key) == Some(v) {
            assert(members[i] == (key, v));
        }
    }
}

/// What a key has before a merge, if nothing then null.
pub open spec fn value_at(members: Seq<(Seq<char>, JsonModel)>, key: Seq<char>, v: JsonModel) -> bool {
    members.contains((key, v)) || !has_key(members, key) && v is Null
}

proof fn set_keys(members: Seq<(Seq<char>, JsonModel)>, key: Seq<char>, value: JsonModel, k: Seq<char>)
    requires
        keys_differ(members),
    ensures
        has_key(with_member(members, key, value), k) <==> k == key || has_key(members, k),
{
    let after = with_member(members, key, value);
    set_members_are_found(members, key, value);
    if has_key(after, k) && k != key {
        let p = choose|p: int| 0 <= p < after.len() && (#[trigger] after[p]).0 == k;
        assert(after.contains((k, after[p].1)));
        assert(members.contains((k, after[p].1)));
        let q = choose|q: int| 0 <= q < members.len() && members[q] == (k, after[p].1);
        assert(members[q].0 == k);
    }
    if k == key {
        let p = choose|p: int| 0 <= p < after.len() && after[p] == (key, value);
        assert(after[p].0 == k);
    } else if has_key(members, k) {
        let q = choose|q: int| 0 <= q < members.len() && (#[trigger] members[q]).0 == k;
        assert(members.contains((k, members[q].1)));
        assert(after.contains((k, members[q].1)));
        let p = choose|p: int| 0 <= p < after.len() && after[p] == (k, members[q].1);
        assert(after[p].0 == k);
    }
}

proof fn merged_so_far(
    base: Seq<(Seq<char>, JsonModel)>,
    changes: Seq<(Seq<char>, JsonModel)>,
    n: nat,
)
    requires
        n <= changes.len(),
        keys_differ(base),
        keys_differ(changes),
    ensures
        ({
            let after = merged_members(base, changes, n);
            &&& keys_differ(after)
            &&& forall|i: int, v: JsonModel|
                0 <= i < n && #[trigger] value_at(base, (#[trigger] changes[i]).0, v)
                    ==> after.contains((changes[i].0, merged(v, changes[i].1)))
            &&& forall|k: Seq<char>|
                (forall|i: int| 0 <= i < n ==> (#[trigger] changes[i]).0 != k) ==> (
                #[trigger] has_key(after, k) <==> has_key(base, k))
            &&& forall|k: Seq<char>, v: JsonModel|
                (forall|i: int| 0 <= i < n ==> (#[trigger] changes[i]).0 != k) ==> (
                #[trigger] after.contains((k, v)) <==> base.contains((k, v)))
        }),
    decreases n,
{
    if n > 0 {
        let m = n - 1;
        merged_so_far(base, changes, m as nat);
        let before = merged_members(base, changes, m as nat);
        let (key, change) = changes[m];
        let current = match member(before, key) {
            Some(value) => value,
            None => JsonModel::Null,
        };
        let after = merged_members(base, changes, n);
        assert(after == with_member(before, key, merged(current, change)));
        looked_up(before, key);
        looked_up(base, key);
        set_members_are_found(before, key, merged(current, change));
        assert forall|i: int| 0 <= i < m implies (#[trigger] changes[i]).0 != key by {
            assert(changes[i].0 != changes[m].0);
        }
        assert(has_key(before, key) <==> has_key(base, key));
        assert forall|i: int, v: JsonModel|
            0 <= i < n && #[trigger] value_at(
                base,
                (#[trigger] changes[i]).0,
                v,
            ) implies after.contains((changes[i].0, merged(v, changes[i].1))) by {
            if i == m {
                if base.contains((key, v)) {
                    assert(before.contains((key, v)));
                }
                assert(v == current);
            } else {
                assert(before.contains((changes[i].0, merged(v, changes[i].1))));
                assert(changes[i].0 != key);
            }
        }
        assert forall|k: Seq<char>|
            (forall|i: int| 0 <= i < n ==> (#[trigger] changes[i]).0 != k) implies (
        #[trigger] has_key(after, k) <==> has_key(base, k)) by {
            assert(changes[m].0 != k);
            set_keys(before, key, merged(current, change), k);
            assert(has_key(before, k) <==> has_key(base, k));
        }
        assert forall|k: Seq<char>, v: JsonModel|
            (forall|i: int| 0 <= i < n ==> (#[trigger] changes[i]).0 != k) implies (
        #[trigger] after.contains((k, v)) <==> base.contains((k, v))) by {
            assert(changes[m].0 != k);
            assert(before.contains((k, v)) <==> base.contains((k, v)));
        }
    }
}

/// Merging an object into an object keeps every member that the patch does not name, and merges
/// each value of the patch into the member of its name, or into null where there is none.
pub proof fn objects_merge_by_member(
    base: Seq<(Seq<char>, JsonModel)>,
    changes: Seq<(Seq<char>, JsonModel)>,
)
    requires
        keys_differ(base),
        keys_differ(changes),
    ensures
        merged(JsonModel::Object(base), JsonModel::Object(changes)) matches JsonModel::Object(after)
            && {
            &&& keys_differ(after)
            &&& forall|i: int, v: JsonModel|
                0 <= i < changes.len() && #[trigger] value_at(base, (#[trigger] changes[i]).0, v)
                    ==> after.contains((changes[i].0, merged(v, changes[i].1)))
            &&& forall|k: Seq<char>, v: JsonModel|
                !has_key(changes, k) ==> (#[trigger] after.contains((k, v)) <==> base.contains(
                    (k, v),
                ))
        },
{
    merged_so_far(base, changes, changes.len());
    let after = merged_members(base, changes, changes.len());
    assert forall|k: Seq<char>, v: JsonModel| !has_key(changes, k) implies (
    #[trigger] after.contains((k, v)) <==> base.contains((k, v))) by {
        assert forall|i: int| 0 <= i < changes.len() implies (#[trigger] changes[i]).0 != k by {
            if changes[i].0 == k {
                assert(has_key(changes, k));
            }
        }
    }
}

/// Merging anything else replaces the value: one that is no object takes the place of what was
/// there, and an object takes the place of what was none.
pub proof fn other_values_are_replaced(base: JsonModel, patch: JsonModel)
    ensures
        !(patch is Object) ==> merged(base, patch) == patch,
        !(base is Object) ==> merged(base, patch) == patch,
{
}

} // verus!
