//! What the entries that are read from a document hold.
use crate::conversion::keys_differ;
use crate::document::{
    document_entries, entries_of, entry_fault, entry_of, field, list_field, members_map,
    rules_map,
};
use crate::entry::{EntryModel, RuleModel};
use crate::merging::{has_key, looked_up};
use crate::value::{member, JsonModel};
use vstd::prelude::*;

verus! {

/// A map made of members has their values under their keys.
proof fn members_are_mapped(members: Seq<(Seq<char>, JsonModel)>, n: nat, k: Seq<char>, v: JsonModel)
    requires
        keys_differ(members),
        n <= members.len(),
    ensures
        members_map(members, n).dom().contains(k) && members_map(members, n)[k] == v
            <==> members.take(n as int).contains((k, v)),
        members_map(members, n).dom().contains(k) <==> has_key(members.take(n as int), k),
    decreases n,
{
    let now = members.take(n as int);
    if n > 0 {
        members_are_mapped(members, (n - 1) as nat, k, v);
        let before = members.take(n - 1);
        let last = members[n - 1];
        assert(now =~= before.push(last));
        assert(now[n - 1] == last);
        if before.contains((k, v)) {
            let p = choose|p: int| 0 <= p < before.len() && before[p] == (k, v);
            assert(now[p] == (k, v));
            assert(members[p].0 != members[n - 1].0);
        }
        if now.contains((k, v)) {
            let p = choose|p: int| 0 <= p < now.len() && now[p] == (k, v);
            if p < n - 1 {
                assert(before[p] == (k, v));
                assert(members[p].0 != members[n - 1].0);
            }
        }
        if has_key(before, k) {
            let p = choose|p: int| 0 <= p < before.len() && (#[trigger] before[p]).0 == k;
            assert(now[p].0 == k);
        }
        if has_key(now, k) {
            let p = choose|p: int| 0 <= p < now.len() && (#[trigger] now[p]).0 == k;
            if p < n - 1 {
                assert(before[p].0 == k);
            }
        }
    }
}

/// Rules made of members: a flag isolates or stops isolating, a text is a label.
proof fn rules_are_mapped(members: Seq<(Seq<char>, JsonModel)>, n: nat, k: Seq<char>)
    requires
        keys_differ(members),
        n <= members.len(),
        rules_map(members, n) is Some,
    ensures
        ({
            let map = rules_map(members, n)->Some_0;
            let now = members.take(n as int);
            &&& map.dom().contains(k) <==> has_key(now, k)
            &&& forall|own: bool| #[trigger]
                now.contains((k, JsonModel::Bool(own))) ==> map[k] == RuleModel::Local(own)
            &&& forall|label: Seq<char>| #[trigger]
                now.contains((k, JsonModel::Text(label))) ==> map[k] == RuleModel::Global(label)
        }),
    decreases n,
{
    let now = members.take(n as int);
    if n > 0 {
        rules_are_mapped(members, (n - 1) as nat, k);
        let before = members.take(n - 1);
        let last = members[n - 1];
        let map = rules_map(members, n)->Some_0;
        assert(now =~= before.push(last));
        assert(now[n - 1] == last);
        if has_key(before, k) {
            let p = choose|p: int| 0 <= p < before.len() && (#[trigger] before[p]).0 == k;
            assert(now[p].0 == k);
        }
        if has_key(now, k) {
            let p = choose|p: int| 0 <= p < now.len() && (#[trigger] now[p]).0 == k;
            if p < n - 1 {
                assert(before[p].0 == k);
            }
        }
        assert forall|v: JsonModel| #[trigger] now.contains((k, v)) implies if last.0 == k {
            last.1 == v
        } else {
            before.contains((k, v))
        } by {
            let p = choose|p: int| 0 <= p < now.len() && now[p] == (k, v);
            if p < n - 1 {
                assert(before[p] == (k, v));
                assert(members[p].0 != members[n - 1].0);
            }
        }
        assert forall|own: bool| #[trigger] now.contains((k, JsonModel::Bool(own))) implies map[k]
            == RuleModel::Local(own) by {
            if last.0 != k {
                assert(before.contains((k, JsonModel::Bool(own))));
            }
        }
        assert forall|label: Seq<char>| #[trigger]
            now.contains((k, JsonModel::Text(label))) implies map[k] == RuleModel::Global(
            label,
        ) by {
            if last.0 != k {
                assert(before.contains((k, JsonModel::Text(label))));
            }
        }
    }
}

/// A list of entries is read item by item, in order.
pub proof fn items_are_read_in_order(items: Seq<JsonModel>, n: nat)
    requires
        n <= items.len(),
    ensures
        match entries_of(items, n) {
            Ok(entries) => entries.len() == n && forall|i: int|
                0 <= i < n ==> entry_of(items[i]) == Ok::<EntryModel, Seq<char>>(
                    #[trigger] entries[i],
                ),
            Err(message) => exists|i: int|
                0 <= i < n && entry_of(#[trigger] items[i]) == Err::<EntryModel, Seq<char>>(message)
                    && forall|j: int| 0 <= j < i ==> entry_of(#[trigger] items[j]) is Ok,
        },
    decreases n,
{
    if n > 0 {
        let m = (n - 1) as nat;
        items_are_read_in_order(items, m);
        if let Ok(before) = entries_of(items, m) {
            assert forall|j: int| 0 <= j < m implies entry_of(#[trigger] items[j]) is Ok by {
                assert(entry_of(items[j]) == Ok::<EntryModel, Seq<char>>(before[j]));
            }
            match entry_of(items[n - 1]) {
                Ok(entry) => {
                    let all = before.push(entry);
                    assert(entries_of(items, n)->Ok_0 == all);
                    assert forall|i: int| 0 <= i < n implies entry_of(items[i]) == Ok::<
                        EntryModel,
                        Seq<char>,
                    >(#[trigger] all[i]) by {
                        if i < m {
                            assert(all[i] == before[i]);
                        }
                    }
                },
                Err(message) => {
                    assert(entries_of(items, n) == Err::<Seq<EntryModel>, Seq<char>>(message));
                },
            }
        }
    }
}

/// An entry holds what the object it is read from says: its identifier, which has to be there,
/// and its component, configuration, flags, intercepts, isolation rules and children, each where
/// it is there. Without them it names no component, its configuration is null, its flags are off
/// and the rest is empty.
pub proof fn entries_hold_their_fields(members: Seq<(Seq<char>, JsonModel)>)
    requires
        keys_differ(members),
        entry_of(JsonModel::Object(members)) is Ok,
    ensures
        ({
            let e = entry_of(JsonModel::Object(members))->Ok_0;
            &&& members.contains(("id"@, JsonModel::Text(e.id)))
            &&& members.contains(("component"@, JsonModel::Text(e.component))) || !has_key(
                members,
                "component"@,
            ) && e.component.len() == 0
            &&& members.contains(("config"@, e.config)) || !has_key(members, "config"@)
                && e.config is Null
            &&& members.contains(("disabled"@, JsonModel::Bool(e.disabled))) || !has_key(
                members,
                "disabled"@,
            ) && !e.disabled
            &&& members.contains(("group"@, JsonModel::Bool(e.group))) || !has_key(
                members,
                "group"@,
            ) && !e.group
            &&& !has_key(members, "intercept"@) ==> e.intercept == Map::<
                Seq<char>,
                JsonModel,
            >::empty()
            &&& forall|inner: Seq<(Seq<char>, JsonModel)>, k: Seq<char>, v: JsonModel|
                #![trigger members.contains(("intercept"@, JsonModel::Object(inner))), inner.contains((k, v))]
                members.contains(("intercept"@, JsonModel::Object(inner))) && keys_differ(inner)
                    ==> (inner.contains((k, v)) <==> e.intercept.dom().contains(k)
                    && e.intercept[k] == v)
            &&& !has_key(members, "isolate"@) ==> e.isolate == Map::<Seq<char>, RuleModel>::empty()
            &&& forall|inner: Seq<(Seq<char>, JsonModel)>, k: Seq<char>|
                #![trigger members.contains(("isolate"@, JsonModel::Object(inner))), has_key(inner, k)]
                members.contains(("isolate"@, JsonModel::Object(inner))) && keys_differ(inner) ==> {
                    &&& has_key(inner, k) <==> e.isolate.dom().contains(k)
                    &&& inner.contains((k, JsonModel::Bool(true))) ==> e.isolate[k]
                        == RuleModel::Local(true)
                    &&& inner.contains((k, JsonModel::Bool(false))) ==> e.isolate[k]
                        == RuleModel::Local(false)
                    &&& forall|label: Seq<char>| #[trigger]
                        inner.contains((k, JsonModel::Text(label))) ==> e.isolate[k]
                            == RuleModel::Global(label)
                }
            &&& !has_key(members, "children"@) ==> e.children.len() == 0
            &&& forall|items: Seq<JsonModel>| #[trigger]
                members.contains(("children"@, JsonModel::Array(items))) ==> e.children.len()
                    == items.len() && forall|i: int|
                    0 <= i < items.len() ==> entry_of(items[i]) == Ok::<EntryModel, Seq<char>>(
                        #[trigger] e.children[i],
                    )
        }),
{
    let v = JsonModel::Object(members);
    let e = entry_of(v)->Ok_0;
    looked_up(members, "id"@);
    looked_up(members, "component"@);
    looked_up(members, "config"@);
    looked_up(members, "disabled"@);
    looked_up(members, "group"@);
    looked_up(members, "intercept"@);
    looked_up(members, "isolate"@);
    looked_up(members, "children"@);
    assert(entry_fault(v) is None);
    assert(field(v, 0, "id"@) == member(members, "id"@));
    assert(member(members, "id"@) == Some(JsonModel::Text(e.id)));
    assert(field(v, 1, "component"@) == member(members, "component"@));
    assert(field(v, 2, "config"@) == member(members, "config"@));
    assert(field(v, 3, "disabled"@) == member(members, "disabled"@));
    assert(field(v, 4, "group"@) == member(members, "group"@));
    assert(field(v, 5, "intercept"@) == member(members, "intercept"@));
    assert(field(v, 6, "isolate"@) == member(members, "isolate"@));
    assert(field(v, 7, "children"@) == member(members, "children"@));
    if member(members, "component"@) is Some {
        assert(member(members, "component"@) == Some(JsonModel::Text(e.component)));
    }
    if member(members, "config"@) is Some {
        assert(member(members, "config"@) == Some(e.config));
    }
    if member(members, "disabled"@) is Some {
        assert(member(members, "disabled"@) == Some(JsonModel::Bool(e.disabled)));
    }
    if member(members, "group"@) is Some {
        assert(member(members, "group"@) == Some(JsonModel::Bool(e.group)));
    }
    assert forall|inner: Seq<(Seq<char>, JsonModel)>, k: Seq<char>, w: JsonModel|
        #![trigger members.contains(("intercept"@, JsonModel::Object(inner))), inner.contains((k, w))]
        members.contains(("intercept"@, JsonModel::Object(inner))) && keys_differ(inner) implies (
    inner.contains((k, w)) <==> e.intercept.dom().contains(k) && e.intercept[k] == w) by {
        members_are_mapped(inner, inner.len(), k, w);
        assert(inner.take(inner.len() as int) =~= inner);
    }
    assert forall|inner: Seq<(Seq<char>, JsonModel)>, k: Seq<char>|
        #![trigger members.contains(("isolate"@, JsonModel::Object(inner))), has_key(inner, k)]
        members.contains(("isolate"@, JsonModel::Object(inner))) && keys_differ(inner) implies {
        &&& has_key(inner, k) <==> e.isolate.dom().contains(k)
        &&& inner.contains((k, JsonModel::Bool(true))) ==> e.isolate[k] == RuleModel::Local(true)
        &&& inner.contains((k, JsonModel::Bool(false))) ==> e.isolate[k] == RuleModel::Local(false)
        &&& forall|label: Seq<char>| #[trigger]
            inner.contains((k, JsonModel::Text(label))) ==> e.isolate[k] == RuleModel::Global(label)
    } by {
        rules_are_mapped(inner, inner.len(), k);
        assert(inner.take(inner.len() as int) =~= inner);
    }
    let children = list_field(field(v, 7, "children"@))->Some_0;
    items_are_read_in_order(children, children.len());
}

/// A document is a list of entries, or an object that has such a list as `entries`. Anything else
/// is refused.
pub proof fn documents_hold_entries(v: JsonModel)
    ensures
        document_entries(v) is Ok ==> v is Array || v is Object,
        v matches JsonModel::Array(items) ==> document_entries(v) == entries_of(items, items.len()),
        v matches JsonModel::Object(members) ==> (keys_differ(members) ==> (document_entries(v)
            is Ok ==> exists|items: Seq<JsonModel>| #[trigger]
            members.contains(("entries"@, JsonModel::Array(items))) && document_entries(v)
                == entries_of(items, items.len()))),
{
    if let JsonModel::Object(members) = v {
        if keys_differ(members) {
            looked_up(members, "entries"@);
            if document_entries(v) is Ok {
                let items = member(members, "entries"@)->Some_0->Array_0;
                assert(members.contains(("entries"@, JsonModel::Array(items))));
            }
        }
    }
}

} // verus!
