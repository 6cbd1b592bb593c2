//! When two resolved entries count as the same: the two zeros of floating point are equal.
use crate::entry::{
    children_model, entries_wf, entry_models, entry_wf, EntryModel, EntrySpec, ResolvedEntry,
    ResolvedEntryModel,
};
use crate::order::{
    contents, entries_facts, entry_at, entry_keys, same_text, TextEntry, TextMap,
};
use crate::value::{
    array_model, item_models, member_models, object_model, JsonModel, Member, Value,
};
use vstd::prelude::*;

verus! {

/// A number with the sign of a zero dropped.
pub open spec fn plain_number(spelling: Seq<char>) -> Seq<char> {
    if spelling == "-0.0"@ {
        "0.0"@
    } else {
        spelling
    }
}

/// A value with the signs of its zeros dropped.
pub open spec fn plain(v: JsonModel) -> JsonModel
    decreases v,
{
    match v {
        JsonModel::Number(spelling) => JsonModel::Number(plain_number(spelling)),
        JsonModel::Array(items) => JsonModel::Array(
            Seq::new(
                items.len(),
                |i: int|
                    if 0 <= i < items.len() {
                        plain(items[i])
                    } else {
                        JsonModel::Null
                    },
            ),
        ),
        JsonModel::Object(members) => JsonModel::Object(
            Seq::new(
                members.len(),
                |i: int|
                    if 0 <= i < members.len() {
                        (members[i].0, plain(members[i].1))
                    } else {
                        (Seq::empty(), JsonModel::Null)
                    },
            ),
        ),
        other => other,
    }
}

/// Values with the signs of their zeros dropped.
pub open spec fn plain_map(map: Map<Seq<char>, JsonModel>) -> Map<Seq<char>, JsonModel> {
    Map::new(|key: Seq<char>| map.dom().contains(key), |key: Seq<char>| plain(map[key]))
}

/// An entry with the signs of its zeros dropped.
pub open spec fn plain_entry(e: EntryModel) -> EntryModel
    decreases e,
{
    EntryModel {
        config: plain(e.config),
        intercept: plain_map(e.intercept),
        children: Seq::new(
            e.children.len(),
            |i: int|
                if 0 <= i < e.children.len() {
                    plain_entry(e.children[i])
                } else {
                    arbitrary()
                },
        ),
        ..e
    }
}

/// A resolved entry with the signs of its zeros dropped.
pub open spec fn plain_resolved(e: ResolvedEntryModel) -> ResolvedEntryModel {
    ResolvedEntryModel { spec: plain_entry(e.spec), intercept: plain_map(e.intercept), ..e }
}

/// Two resolved entries count as the same.
pub open spec fn alike(a: ResolvedEntryModel, b: ResolvedEntryModel) -> bool {
    plain_resolved(a) == plain_resolved(b)
}

fn plain_value(v: &Value) -> (r: Value)
    ensures
        r@ == plain(v@),
    decreases v,
{
    match v {
        Value::Null => Value::Null,
        Value::Bool(b) => Value::Bool(*b),
        Value::Number(n) => if same_text(n.as_str(), "-0.0") {
            Value::Number("0.0".to_owned())
        } else {
            Value::Number(n.clone())
        },
        Value::Text(s) => Value::Text(s.clone()),
        Value::Array(items) => {
            let copies = plain_items(items);
            proof {
                array_model(*items);
                array_model(copies);
                let models = item_models(items@);
                assert(models.len() == items@.len());
                assert(item_models(copies@) =~= plain(v@)->Array_0);
            }
            Value::Array(copies)
        },
        Value::Object(members) => {
            let copies = plain_members(members);
            proof {
                object_model(*members);
                object_model(copies);
                let models = member_models(members@);
                assert(models.len() == members@.len());
                assert(member_models(copies@) =~= plain(v@)->Object_0);
            }
            Value::Object(copies)
        },
    }
}

fn plain_items(items: &Vec<Value>) -> (r: Vec<Value>)
    ensures
        r@.len() == items@.len(),
        forall|i: int| 0 <= i < r@.len() ==> (#[trigger] r@[i])@ == plain(items@[i]@),
    decreases items,
{
    let mut out: Vec<Value> = Vec::new();
    let mut i: usize = 0;
    while i < items.len()
        invariant
            i <= items.len(),
            out.len() == i,
            forall|j: int| 0 <= j < i ==> (#[trigger] out@[j])@ == plain(items@[j]@),
        decreases items.len() - i,
    {
        out.push(plain_value(&items[i]));
        i = i + 1;
    }
    out
}

fn plain_members(members: &Vec<Member>) -> (r: Vec<Member>)
    ensures
        r@.len() == members@.len(),
        forall|i: int|
            0 <= i < r@.len() ==> (#[trigger] r@[i])@ == (
                members@[i].key@,
                plain(members@[i].value@),
            ),
    decreases members,
{
    let mut out: Vec<Member> = Vec::new();
    let mut i: usize = 0;
    while i < members.len()
        invariant
            i <= members.len(),
            out.len() == i,
            forall|j: int|
                0 <= j < i ==> (#[trigger] out@[j])@ == (
                    members@[j].key@,
                    plain(members@[j].value@),
                ),
        decreases members.len() - i,
    {
        out.push(Member { key: members[i].key.clone(), value: plain_value(&members[i].value) });
        i = i + 1;
    }
    out
}

fn plain_values(map: &TextMap<Value>) -> (r: TextMap<Value>)
    requires
        map.wf(),
    ensures
        r.wf(),
        contents(r@) == plain_map(contents(map@)),
{
    let ghost a = map.entries@;
    let mut entries: Vec<TextEntry<Value>> = Vec::new();
    let mut i: usize = 0;
    while i < map.entries.len()
        invariant
            a == map.entries@,
            i <= a.len(),
            entries@.len() == i,
            forall|k: int|
                0 <= k < i ==> (#[trigger] entries@[k]).key@ == a[k].key@ && entries@[k].value@
                    == plain(a[k].value@),
        decreases a.len() - i,
    {
        entries.push(
            TextEntry {
                key: map.entries[i].key.clone(),
                value: plain_value(&map.entries[i].value),
            },
        );
        i = i + 1;
    }
    let r = TextMap { entries };
    proof {
        let b = r.entries@;
        assert(entry_keys(b) =~= entry_keys(a));
        entries_facts(a);
        entries_facts(b);
        let expected = plain_map(contents(map@));
        assert forall|key: Seq<char>| #[trigger]
            contents(r@).dom().contains(key) <==> expected.dom().contains(key) by {
            assert(map@.dom().contains(key) <==> entry_keys(a).contains(key));
            assert(r@.dom().contains(key) <==> entry_keys(b).contains(key));
        }
        assert forall|key: Seq<char>| #[trigger]
            contents(r@).dom().contains(key) implies contents(r@)[key] == expected[key] by {
            let k = choose|k: int| #[trigger] entry_at(b, key, k);
            assert(r@[b[k].key@] == b[k].value);
            assert(map@[a[k].key@] == a[k].value);
        }
        assert(contents(r@) =~= expected);
    }
    r
}

fn plain_specs(entries: &Vec<EntrySpec>) -> (r: Vec<EntrySpec>)
    requires
        entries_wf(entries@),
    ensures
        r@.len() == entries@.len(),
        entries_wf(r@),
        forall|i: int| 0 <= i < r@.len() ==> (#[trigger] r@[i])@ == plain_entry(entries@[i]@),
    decreases entries,
{
    let mut out: Vec<EntrySpec> = Vec::new();
    let mut i: usize = 0;
    while i < entries.len()
        invariant
            entries_wf(entries@),
            i <= entries.len(),
            out@.len() == i,
            entries_wf(out@),
            forall|k: int| 0 <= k < i ==> (#[trigger] out@[k])@ == plain_entry(entries@[k]@),
        decreases entries.len() - i,
    {
        out.push(plain_spec(&entries[i]));
        i = i + 1;
    }
    out
}

fn plain_spec(e: &EntrySpec) -> (r: EntrySpec)
    requires
        entry_wf(*e),
    ensures
        r@ == plain_entry(e@),
        entry_wf(r),
    decreases e,
{
    let children = plain_specs(&e.children);
    let r = EntrySpec {
        id: e.id.duplicate(),
        component: e.component.clone(),
        config: plain_value(&e.config),
        disabled: e.disabled,
        group: e.group,
        intercept: plain_values(&e.intercept),
        isolate: e.isolate.duplicate(),
        children,
    };
    proof {
        children_model(r);
        children_model(*e);
        assert(entry_models(r.children@) =~= plain_entry(e@).children);
    }
    r
}

/// Whether two resolved entries count as the same.
pub fn are_alike(a: &ResolvedEntry, b: &ResolvedEntry) -> (r: bool)
    requires
        a.wf(),
        b.wf(),
    ensures
        r == alike(a@, b@),
{
    let x = ResolvedEntry {
        spec: plain_spec(&a.spec),
        intercept: plain_values(&a.intercept),
        ..a.duplicate()
    };
    let y = ResolvedEntry {
        spec: plain_spec(&b.spec),
        intercept: plain_values(&b.intercept),
        ..b.duplicate()
    };
    x.same(&y)
}

} // verus!
