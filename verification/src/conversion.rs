//! How documents become JSON part by part.
use crate::entry::LoaderErrorModel;
use crate::expression::{
    all_explained, expr_count, expressions, is_expr, items_count, items_expressions,
    items_json, may_become, may_see, members_count, members_expressions, members_json, yaml_json,
    ExprFault, TaggedMember, TaggedNode, YamlNode,
};
use crate::text::{decimal, decimals_read_back, number_of};
use crate::value::{
    key_position, key_position_facts, sorted_position, with_member, JsonModel, Value,
};
use vstd::prelude::*;
use vstd::seq_lib::lemma_flatten_concat;

verus! {

/// What comes of a part of a document.
pub type Converted = Result<JsonModel, LoaderErrorModel>;

// ---------------------------------------------------------------------------------------------
// Objects
// ---------------------------------------------------------------------------------------------

/// No key occurs twice.
pub open spec fn keys_differ(members: Seq<(Seq<char>, JsonModel)>) -> bool {
    forall|p: int, q: int| 0 <= p < q < members.len() ==> (#[trigger] members[p]).0 != (
    #[trigger] members[q]).0
}

proof fn sorted_position_bounds(members: Seq<(Seq<char>, JsonModel)>, key: Seq<char>)
    ensures
        0 <= sorted_position(members, key) <= members.len(),
    decreases members.len(),
{
    if members.len() > 0 {
        sorted_position_bounds(members.drop_first(), key);
    }
}

/// Setting a member gives its key the value and leaves every other member as it is.
pub proof fn set_members_are_found(
    members: Seq<(Seq<char>, JsonModel)>,
    key: Seq<char>,
    value: JsonModel,
)
    requires
        keys_differ(members),
    ensures
        keys_differ(with_member(members, key, value)),
        with_member(members, key, value).contains((key, value)),
        forall|k: Seq<char>, v: JsonModel|
            k != key ==> (#[trigger] with_member(members, key, value).contains((k, v))
                <==> members.contains((k, v))),
{
    let after = with_member(members, key, value);
    key_position_facts(members, key);
    sorted_position_bounds(members, key);
    let i = key_position(members, key);
    let at = sorted_position(members, key);
    if i < members.len() {
        assert(after[i] == (key, value));
        assert forall|p: int, q: int| 0 <= p < q < after.len() implies (#[trigger] after[p]).0 != (
        #[trigger] after[q]).0 by {
            assert(members[p].0 != members[q].0);
        }
    } else {
        assert(after[at] == (key, value));
        assert forall|p: int, q: int| 0 <= p < q < after.len() implies (#[trigger] after[p]).0 != (
        #[trigger] after[q]).0 by {
            let a = if p < at {
                p
            } else {
                p - 1
            };
            let b = if q < at {
                q
            } else {
                q - 1
            };
            if p != at && q != at {
                assert(members[a].0 != members[b].0);
            } else if p == at {
                assert(members[b].0 != key);
            } else {
                assert(members[a].0 != key);
            }
        }
    }
    assert forall|k: Seq<char>, v: JsonModel| k != key implies (#[trigger] after.contains((k, v))
        <==> members.contains((k, v))) by {
        if after.contains((k, v)) {
            let p = choose|p: int| 0 <= p < after.len() && after[p] == (k, v);
            if i < members.len() || p < at {
                assert(members[p] == (k, v));
            } else {
                assert(members[p - 1] == (k, v));
            }
        }
        if members.contains((k, v)) {
            let p = choose|p: int| 0 <= p < members.len() && members[p] == (k, v);
            if i < members.len() || p < at {
                assert(after[p] == (k, v));
            } else {
                assert(after[p + 1] == (k, v));
            }
        }
    }
}

// ---------------------------------------------------------------------------------------------
// Expressions in document order
// ---------------------------------------------------------------------------------------------

proof fn expressions_are_counted(t: TaggedNode)
    ensures
        expressions(t).len() == expr_count(t),
    decreases t, 0nat,
{
    if t.tag is None {
        match t.node {
            YamlNode::Sequence(items) => {
                items_are_counted(items, items@.len());
            },
            YamlNode::Mapping(members) => {
                members_are_counted(members, members@.len());
            },
            _ => {},
        }
    }
}

proof fn items_are_counted(items: Vec<TaggedNode>, n: nat)
    ensures
        items_expressions(items, n).len() == items_count(items, n),
    decreases items, n,
{
    if 0 < n <= items@.len() {
        items_are_counted(items, (n - 1) as nat);
        assert(decreases_to!(items => items@[n - 1]));
        expressions_are_counted(items@[n - 1]);
    }
}

proof fn members_are_counted(members: Vec<TaggedMember>, n: nat)
    ensures
        members_expressions(members, n).len() == members_count(members, n),
    decreases members, n,
{
    if 0 < n <= members@.len() {
        members_are_counted(members, (n - 1) as nat);
        assert(decreases_to!(members => members@[n - 1]));
        expressions_are_counted(members@[n - 1].value);
    }
}

proof fn members_chained(members: Vec<TaggedMember>, own: Seq<Seq<Seq<char>>>, n: nat)
    requires
        own == Seq::new(members@.len(), |i: int| expressions(members@[i].value)),
        n <= members@.len(),
    ensures
        members_expressions(members, n) == own.take(n as int).flatten(),
    decreases n,
{
    if n > 0 {
        members_chained(members, own, (n - 1) as nat);
        assert(own.take(n as int) =~= own.take(n - 1).push(own[n - 1]));
        own.take(n - 1).lemma_flatten_push(own[n - 1]);
    } else {
        assert(own.take(0) =~= Seq::empty());
    }
}

proof fn items_chained(items: Vec<TaggedNode>, own: Seq<Seq<Seq<char>>>, n: nat)
    requires
        own == Seq::new(items@.len(), |i: int| expressions(items@[i])),
        n <= items@.len(),
    ensures
        items_expressions(items, n) == own.take(n as int).flatten(),
    decreases n,
{
    if n > 0 {
        items_chained(items, own, (n - 1) as nat);
        assert(own.take(n as int) =~= own.take(n - 1).push(own[n - 1]));
        own.take(n - 1).lemma_flatten_push(own[n - 1]);
    } else {
        assert(own.take(0) =~= Seq::empty());
    }
}

/// The expressions of a list or a mapping are those of its parts, one part after another.
pub proof fn expressions_come_in_order(t: TaggedNode)
    requires
        t.tag is None,
    ensures
        t.node matches YamlNode::Sequence(items) ==> expressions(t) == Seq::new(
            items@.len(),
            |i: int| expressions(items@[i]),
        ).flatten(),
        t.node matches YamlNode::Mapping(members) ==> expressions(t) == Seq::new(
            members@.len(),
            |i: int| expressions(members@[i].value),
        ).flatten(),
{
    match t.node {
        YamlNode::Sequence(items) => {
            let own = Seq::new(items@.len(), |i: int| expressions(items@[i]));
            items_chained(items, own, items@.len());
            assert(own.take(items@.len() as int) =~= own);
        },
        YamlNode::Mapping(members) => {
            let own = Seq::new(members@.len(), |i: int| expressions(members@[i].value));
            members_chained(members, own, members@.len());
            assert(own.take(members@.len() as int) =~= own);
        },
        _ => {},
    }
}

// ---------------------------------------------------------------------------------------------
// Results where they belong
// ---------------------------------------------------------------------------------------------

/// From two positions on, two lists of results hold the same `n` results.
spec fn agree(a: Seq<Converted>, i: int, b: Seq<Converted>, j: int, n: nat) -> bool {
    forall|k: int| #![trigger a[i + k]] #![trigger b[j + k]] 0 <= k < n ==> a[i + k] == b[j + k]
}

proof fn agree_further(
    a: Seq<Converted>,
    i: int,
    b: Seq<Converted>,
    j: int,
    n: nat,
    skip: nat,
    m: nat,
)
    requires
        agree(a, i, b, j, n),
        skip + m <= n,
    ensures
        agree(a, i + skip, b, j + skip, m),
{
    assert forall|k: int|
        #![trigger a[i + skip + k]]
        #![trigger b[j + skip + k]]
        0 <= k < m implies a[i + skip + k] == b[j + skip + k] by {
        assert(a[i + (skip + k)] == b[j + (skip + k)]);
    }
}

/// Only the results of its own expressions matter to a value.
proof fn own_results_decide(t: TaggedNode, a: Seq<Converted>, i: int, b: Seq<Converted>, j: int)
    requires
        agree(a, i, b, j, expr_count(t)),
    ensures
        yaml_json(t, a, i) == yaml_json(t, b, j),
    decreases t, 0nat,
{
    match t.tag {
        Some(_) => {
            if is_expr(t.tag) && t.node is Text {
                assert(a[i + 0] == b[j + 0]);
            }
        },
        None => match t.node {
            YamlNode::Sequence(items) => {
                own_results_of_items(items, items@.len(), a, i, b, j);
            },
            YamlNode::Mapping(members) => {
                own_results_of_members(members, members@.len(), a, i, b, j);
            },
            _ => {},
        },
    }
}

proof fn own_results_of_items(
    items: Vec<TaggedNode>,
    n: nat,
    a: Seq<Converted>,
    i: int,
    b: Seq<Converted>,
    j: int,
)
    requires
        agree(a, i, b, j, items_count(items, n)),
    ensures
        items_json(items, n, a, i) == items_json(items, n, b, j),
    decreases items, n,
{
    if 0 < n <= items@.len() {
        let before = items_count(items, (n - 1) as nat);
        let here = expr_count(items@[n - 1]);
        agree_further(a, i, b, j, before + here, 0, before);
        own_results_of_items(items, (n - 1) as nat, a, i, b, j);
        agree_further(a, i, b, j, before + here, before, here);
        assert(decreases_to!(items => items@[n - 1]));
        own_results_decide(items@[n - 1], a, i + before, b, j + before);
    }
}

proof fn own_results_of_members(
    members: Vec<TaggedMember>,
    n: nat,
    a: Seq<Converted>,
    i: int,
    b: Seq<Converted>,
    j: int,
)
    requires
        agree(a, i, b, j, members_count(members, n)),
    ensures
        members_json(members, n, a, i) == members_json(members, n, b, j),
    decreases members, n,
{
    if 0 < n <= members@.len() {
        let before = members_count(members, (n - 1) as nat);
        let here = expr_count(members@[n - 1].value);
        agree_further(a, i, b, j, before + here, 0, before);
        own_results_of_members(members, (n - 1) as nat, a, i, b, j);
        agree_further(a, i, b, j, before + here, before, here);
        assert(decreases_to!(members => members@[n - 1]));
        own_results_decide(members@[n - 1].value, a, i + before, b, j + before);
    }
}

/// Where the parts of a chained list lie in it.
proof fn chained_parts<A>(parts: Seq<Seq<A>>, i: int)
    requires
        0 <= i < parts.len(),
    ensures
        parts.take(i).flatten().len() + parts[i].len() <= parts.flatten().len(),
        parts.take(i + 1).flatten().len() == parts.take(i).flatten().len() + parts[i].len(),
        forall|k: int|
            0 <= k < parts[i].len() ==> parts.flatten()[parts.take(i).flatten().len() + k]
                == #[trigger] parts[i][k],
{
    lemma_flatten_concat(parts.take(i), parts.skip(i));
    assert(parts.take(i) + parts.skip(i) =~= parts);
    assert(parts.skip(i).first() == parts[i]);
    assert(parts.take(i + 1) =~= parts.take(i).push(parts[i]));
    parts.take(i).lemma_flatten_push(parts[i]);
}

/// No later member has the same key.
pub open spec fn last_of_its_key(members: Seq<TaggedMember>, n: int, i: int) -> bool {
    forall|j: int| i < j < n ==> (#[trigger] members[j]).key@ != members[i].key@
}

proof fn members_apart(
    members: Vec<TaggedMember>,
    per: Seq<Seq<Converted>>,
    n: nat,
)
    requires
        per.len() == members@.len(),
        forall|i: int|
            0 <= i < per.len() ==> (#[trigger] per[i]).len() == expr_count(members@[i].value),
        n <= members@.len(),
    ensures
        members_count(members, n) == per.take(n as int).flatten().len(),
        match members_json(members, n, per.flatten(), 0) {
            Ok(inner) => {
                &&& keys_differ(inner)
                &&& forall|i: int|
                    0 <= i < n ==> yaml_json(members@[i].value, #[trigger] per[i], 0) is Ok
                &&& forall|i: int|
                    0 <= i < n && last_of_its_key(members@, n as int, i) ==> inner.contains(
                        (members@[i].key@, yaml_json(members@[i].value, #[trigger] per[i], 0)->Ok_0),
                    )
                &&& forall|p: int|
                    0 <= p < inner.len() ==> exists|i: int|
                        0 <= i < n && #[trigger] members@[i].key@ == (#[trigger] inner[p]).0
            },
            Err(error) => exists|i: int|
                0 <= i < n && yaml_json(members@[i].value, #[trigger] per[i], 0) == Err::<
                    JsonModel,
                    LoaderErrorModel,
                >(error) && forall|j: int|
                    0 <= j < i ==> yaml_json(members@[j].value, #[trigger] per[j], 0) is Ok,
        },
    decreases n,
{
    if n == 0 {
        assert(per.take(0) =~= Seq::empty());
    } else {
        let m = (n - 1) as nat;
        let all = per.flatten();
        members_apart(members, per, m);
        chained_parts(per, m as int);
        let from = members_count(members, m);
        assert(agree(all, from as int, per[m as int], 0, expr_count(members@[m as int].value))) by {
            assert forall|k: int|
                #![trigger all[from + k]]
                #![trigger per[m as int][0 + k]]
                0 <= k < per[m as int].len() implies all[from + k] == per[m as int][0 + k] by {
                assert(per[m as int][k] == per[m as int][0 + k]);
            }
        }
        own_results_decide(members@[m as int].value, all, from as int, per[m as int], 0);
        let value = yaml_json(members@[m as int].value, per[m as int], 0);
        match members_json(members, m, all, 0) {
            Err(error) => {},
            Ok(before) => {
                assert(0 + from == from);
                let key = members@[m as int].key@;
                match value {
                    Err(error) => {
                        assert(members_json(members, n, all, 0) == Err::<
                            Seq<(Seq<char>, JsonModel)>,
                            LoaderErrorModel,
                        >(error));
                        assert(yaml_json(members@[m as int].value, per[m as int], 0) == Err::<
                            JsonModel,
                            LoaderErrorModel,
                        >(error));
                    },
                    Ok(v) => {
                        set_members_are_found(before, key, v);
                        let inner = with_member(before, key, v);
                        assert(members_json(members, n, all, 0)->Ok_0 == inner);
                        assert forall|i: int|
                            0 <= i < n && last_of_its_key(
                                members@,
                                n as int,
                                i,
                            ) implies inner.contains(
                            (
                                members@[i].key@,
                                yaml_json(members@[i].value, #[trigger] per[i], 0)->Ok_0,
                            ),
                        ) by {
                            if i < m {
                                assert(members@[m as int].key@ != members@[i].key@);
                                assert(last_of_its_key(members@, m as int, i));
                                let w = yaml_json(members@[i].value, per[i], 0)->Ok_0;
                                assert(before.contains((members@[i].key@, w)));
                            }
                        }
                        assert forall|p: int| 0 <= p < inner.len() implies exists|i: int|
                            0 <= i < n && #[trigger] members@[i].key@ == (#[trigger] inner[p]).0 by {
                            let (k, w) = inner[p];
                            if k == key {
                                assert(members@[m as int].key@ == k);
                            } else {
                                assert(inner.contains((k, w)));
                                assert(before.contains((k, w)));
                                let q = choose|q: int|
                                    0 <= q < before.len() && before[q] == (k, w);
                                let i = choose|i: int|
                                    0 <= i < m && #[trigger] members@[i].key@ == before[q].0;
                                assert(members@[i].key@ == k);
                            }
                        }
                    },
                }
            },
        }
    }
}

/// Each value of a mapping is converted on its own, with the results of its own expressions. A
/// key has the conversion of the last member with that key. A mapping is refused for the first
/// value that is.
pub proof fn members_are_converted_on_their_own(
    members: Vec<TaggedMember>,
    per: Seq<Seq<Converted>>,
)
    requires
        per.len() == members@.len(),
        forall|i: int|
            0 <= i < per.len() ==> (#[trigger] per[i]).len() == expressions(
                members@[i].value,
            ).len(),
    ensures
        match yaml_json(
            TaggedNode { tag: None, node: YamlNode::Mapping(members) },
            per.flatten(),
            0,
        ) {
            Ok(JsonModel::Object(inner)) => {
                &&& keys_differ(inner)
                &&& forall|i: int|
                    0 <= i < members@.len() && last_of_its_key(
                        members@,
                        members@.len() as int,
                        i,
                    ) ==> yaml_json(members@[i].value, #[trigger] per[i], 0) is Ok
                        && inner.contains(
                        (members@[i].key@, yaml_json(members@[i].value, per[i], 0)->Ok_0),
                    )
                &&& forall|p: int|
                    0 <= p < inner.len() ==> exists|i: int|
                        0 <= i < members@.len() && #[trigger] members@[i].key@ == (
                        #[trigger] inner[p]).0
            },
            Ok(_) => false,
            Err(error) => exists|i: int|
                0 <= i < members@.len() && yaml_json(members@[i].value, #[trigger] per[i], 0)
                    == Err::<JsonModel, LoaderErrorModel>(error) && forall|j: int|
                    0 <= j < i ==> yaml_json(members@[j].value, #[trigger] per[j], 0) is Ok,
        },
{
    assert forall|i: int| 0 <= i < per.len() implies (#[trigger] per[i]).len() == expr_count(
        members@[i].value,
    ) by {
        expressions_are_counted(members@[i].value);
    }
    members_apart(members, per, members@.len());
}

/// A mapping whose values are all expressions becomes an object that has the result of each
/// expression under its own key.
pub proof fn expressions_land_under_their_keys(
    members: Vec<TaggedMember>,
    results: Seq<Converted>,
)
    requires
        forall|i: int|
            0 <= i < members@.len() ==> (#[trigger] members@[i]).value.tag is Some
                && members@[i].value.tag->Some_0@ == "!expr"@ && members@[i].value.node is Text,
        forall|i: int, j: int|
            0 <= i < j < members@.len() ==> (#[trigger] members@[i]).key@ != (
            #[trigger] members@[j]).key@,
        results.len() == members@.len(),
        forall|i: int| 0 <= i < results.len() ==> (#[trigger] results[i]) is Ok,
    ensures
        ({
            let t = TaggedNode { tag: None, node: YamlNode::Mapping(members) };
            &&& expressions(t) == Seq::new(
                members@.len(),
                |i: int| members@[i].value.node->Text_0@,
            )
            &&& yaml_json(t, results, 0) matches Ok(JsonModel::Object(inner)) && inner.len()
                == members@.len() && forall|i: int|
                0 <= i < members@.len() ==> inner.contains(
                    ((#[trigger] members@[i]).key@, results[i]->Ok_0),
                )
        }),
{
    let t = TaggedNode { tag: None, node: YamlNode::Mapping(members) };
    let per = Seq::new(results.len(), |i: int| seq![results[i]]);
    let texts = Seq::new(members@.len(), |i: int| members@[i].value.node->Text_0@);
    let own = Seq::new(members@.len(), |i: int| expressions(members@[i].value));
    expressions_come_in_order(t);
    assert(own =~= Seq::new(texts.len(), |i: int| seq![texts[i]])) by {
        assert forall|i: int| 0 <= i < own.len() implies own[i] == seq![texts[i]] by {
            assert(is_expr(members@[i].value.tag));
        }
    }
    single_parts(texts);
    single_parts(results);
    assert forall|i: int| 0 <= i < per.len() implies (#[trigger] per[i]).len() == expressions(
        members@[i].value,
    ).len() by {
        assert(own[i] == seq![texts[i]]);
    }
    members_are_converted_on_their_own(members, per);
    assert(per.flatten() == results);
    assert forall|i: int| 0 <= i < members@.len() implies #[trigger] yaml_json(
        members@[i].value,
        per[i],
        0,
    ) == results[i] by {
        assert(members@[i].value.tag is Some);
    }
    assert(yaml_json(t, results, 0) is Ok) by {
        if yaml_json(t, results, 0) is Err {
            let error = yaml_json(t, results, 0)->Err_0;
            let i = choose|i: int|
                0 <= i < members@.len() && yaml_json(members@[i].value, #[trigger] per[i], 0)
                    == Err::<JsonModel, LoaderErrorModel>(error);
            assert(yaml_json(members@[i].value, per[i], 0) == results[i]);
        }
    }
    let inner = yaml_json(t, results, 0)->Ok_0->Object_0;
    assert forall|i: int| 0 <= i < members@.len() implies inner.contains(
        ((#[trigger] members@[i]).key@, results[i]->Ok_0),
    ) by {
        assert(last_of_its_key(members@, members@.len() as int, i));
        assert(per[i].len() == 1);
        assert(yaml_json(members@[i].value, per[i], 0) == results[i]);
    }
    same_number_of_keys(members@, inner);
}

/// As many keys as members, where no key occurs twice in either.
proof fn same_number_of_keys(members: Seq<TaggedMember>, inner: Seq<(Seq<char>, JsonModel)>)
    requires
        keys_differ(inner),
        forall|i: int, j: int|
            0 <= i < j < members.len() ==> (#[trigger] members[i]).key@ != (
            #[trigger] members[j]).key@,
        forall|i: int|
            0 <= i < members.len() ==> exists|v: JsonModel| #[trigger]
                inner.contains(((#[trigger] members[i]).key@, v)),
        forall|p: int|
            0 <= p < inner.len() ==> exists|i: int|
                0 <= i < members.len() && #[trigger] members[i].key@ == (#[trigger] inner[p]).0,
    ensures
        inner.len() == members.len(),
{
    let a = Seq::new(members.len(), |i: int| members[i].key@);
    let b = Seq::new(inner.len(), |p: int| inner[p].0);
    assert(a.no_duplicates());
    assert(b.no_duplicates());
    assert(a.to_set() =~= b.to_set()) by {
        assert forall|k: Seq<char>| a.contains(k) <==> b.contains(k) by {
            if a.contains(k) {
                let i = choose|i: int| 0 <= i < a.len() && a[i] == k;
                let v = choose|v: JsonModel| #[trigger] inner.contains((members[i].key@, v));
                let p = choose|p: int| 0 <= p < inner.len() && inner[p] == (members[i].key@, v);
                assert(b[p] == k);
            }
            if b.contains(k) {
                let p = choose|p: int| 0 <= p < b.len() && b[p] == k;
                let i = choose|i: int|
                    0 <= i < members.len() && #[trigger] members[i].key@ == inner[p].0;
                assert(a[i] == k);
            }
        }
    }
    a.unique_seq_to_set();
    b.unique_seq_to_set();
}

proof fn single_parts<A>(items: Seq<A>)
    ensures
        Seq::new(items.len(), |i: int| seq![items[i]]).flatten() == items,
    decreases items.len(),
{
    let parts = Seq::new(items.len(), |i: int| seq![items[i]]);
    if items.len() > 0 {
        single_parts(items.drop_last());
        let fewer = Seq::new(items.drop_last().len(), |i: int| seq![items.drop_last()[i]]);
        assert(parts =~= fewer.push(seq![items.last()]));
        fewer.lemma_flatten_push(seq![items.last()]);
        assert(items.drop_last() + seq![items.last()] =~= items);
    }
}

proof fn items_apart(items: Vec<TaggedNode>, per: Seq<Seq<Converted>>, n: nat)
    requires
        per.len() == items@.len(),
        forall|i: int| 0 <= i < per.len() ==> (#[trigger] per[i]).len() == expr_count(items@[i]),
        n <= items@.len(),
    ensures
        items_count(items, n) == per.take(n as int).flatten().len(),
        match items_json(items, n, per.flatten(), 0) {
            Ok(inner) => {
                &&& inner.len() == n
                &&& forall|i: int|
                    0 <= i < n ==> yaml_json(items@[i], per[i], 0) == Ok::<
                        JsonModel,
                        LoaderErrorModel,
                    >(#[trigger] inner[i])
            },
            Err(error) => exists|i: int|
                0 <= i < n && yaml_json(items@[i], #[trigger] per[i], 0) == Err::<
                    JsonModel,
                    LoaderErrorModel,
                >(error) && forall|j: int|
                    0 <= j < i ==> yaml_json(items@[j], #[trigger] per[j], 0) is Ok,
        },
    decreases n,
{
    if n == 0 {
        assert(per.take(0) =~= Seq::empty());
    } else {
        let m = (n - 1) as nat;
        let all = per.flatten();
        items_apart(items, per, m);
        chained_parts(per, m as int);
        let from = items_count(items, m);
        assert(agree(all, from as int, per[m as int], 0, expr_count(items@[m as int]))) by {
            assert forall|k: int|
                #![trigger all[from + k]]
                #![trigger per[m as int][0 + k]]
                0 <= k < per[m as int].len() implies all[from + k] == per[m as int][0 + k] by {
                assert(per[m as int][k] == per[m as int][0 + k]);
            }
        }
        own_results_decide(items@[m as int], all, from as int, per[m as int], 0);
        if let Ok(before) = items_json(items, m, all, 0) {
            assert(0 + from == from);
            match yaml_json(items@[m as int], per[m as int], 0) {
                Err(error) => {
                    assert(items_json(items, n, all, 0) == Err::<
                        Seq<JsonModel>,
                        LoaderErrorModel,
                    >(error));
                    assert forall|j: int| 0 <= j < m implies yaml_json(
                        items@[j],
                        #[trigger] per[j],
                        0,
                    ) is Ok by {
                        assert(yaml_json(items@[j], per[j], 0) == Ok::<
                            JsonModel,
                            LoaderErrorModel,
                        >(before[j]));
                    }
                },
                Ok(v) => {
                    let inner = before.push(v);
                    assert(items_json(items, n, all, 0)->Ok_0 == inner);
                    assert forall|i: int| 0 <= i < n implies yaml_json(items@[i], per[i], 0)
                        == Ok::<JsonModel, LoaderErrorModel>(#[trigger] inner[i]) by {
                        if i < m {
                            assert(inner[i] == before[i]);
                        }
                    }
                },
            }
        }
    }
}

/// Each item of a list is converted on its own, with the results of its own expressions, and
/// stays at its place. A list is refused for the first item that is.
pub proof fn items_are_converted_on_their_own(items: Vec<TaggedNode>, per: Seq<Seq<Converted>>)
    requires
        per.len() == items@.len(),
        forall|i: int|
            0 <= i < per.len() ==> (#[trigger] per[i]).len() == expressions(items@[i]).len(),
    ensures
        match yaml_json(
            TaggedNode { tag: None, node: YamlNode::Sequence(items) },
            per.flatten(),
            0,
        ) {
            Ok(JsonModel::Array(inner)) => {
                &&& inner.len() == items@.len()
                &&& forall|i: int|
                    0 <= i < inner.len() ==> yaml_json(items@[i], per[i], 0) == Ok::<
                        JsonModel,
                        LoaderErrorModel,
                    >(#[trigger] inner[i])
            },
            Ok(_) => false,
            Err(error) => exists|i: int|
                0 <= i < items@.len() && yaml_json(items@[i], #[trigger] per[i], 0) == Err::<
                    JsonModel,
                    LoaderErrorModel,
                >(error) && forall|j: int|
                    0 <= j < i ==> yaml_json(items@[j], #[trigger] per[j], 0) is Ok,
        },
{
    assert forall|i: int| 0 <= i < per.len() implies (#[trigger] per[i]).len() == expr_count(
        items@[i],
    ) by {
        expressions_are_counted(items@[i]);
    }
    items_apart(items, per, items@.len());
}

// ---------------------------------------------------------------------------------------------
// Whole documents
// ---------------------------------------------------------------------------------------------

/// The outcomes of one part among those of all parts.
spec fn slice(
    texts: Seq<Seq<Seq<char>>>,
    outcomes: Seq<Result<Value, ExprFault>>,
    i: int,
) -> Seq<Result<Value, ExprFault>> {
    let start = texts.take(i).flatten().len() as int;
    outcomes.subrange(start, start + texts[i].len())
}

/// What the outcomes mean to each part.
spec fn shares(
    texts: Seq<Seq<Seq<char>>>,
    outcomes: Seq<Result<Value, ExprFault>>,
) -> Seq<Seq<Converted>> {
    Seq::new(texts.len(), |i: int| all_explained(texts[i], slice(texts, outcomes, i)))
}

proof fn shares_make_the_whole(
    texts: Seq<Seq<Seq<char>>>,
    outcomes: Seq<Result<Value, ExprFault>>,
    n: nat,
)
    requires
        outcomes.len() == texts.flatten().len(),
        n <= texts.len(),
    ensures
        ({
            let size = texts.take(n as int).flatten().len();
            &&& size <= outcomes.len()
            &&& shares(texts, outcomes).take(n as int).flatten() == all_explained(
                texts.flatten(),
                outcomes,
            ).take(size as int)
        }),
    decreases n,
{
    let per = shares(texts, outcomes);
    let whole = all_explained(texts.flatten(), outcomes);
    if n == 0 {
        assert(texts.take(0) =~= Seq::empty());
        assert(per.take(0) =~= Seq::empty());
        assert(whole.take(0) =~= Seq::empty());
    } else {
        let m = n - 1;
        shares_make_the_whole(texts, outcomes, m as nat);
        chained_parts(texts, m);
        assert(per.take(n as int) =~= per.take(m).push(per[m]));
        per.take(m).lemma_flatten_push(per[m]);
        let start = texts.take(m).flatten().len();
        let size = texts.take(n as int).flatten().len();
        assert(whole.take(size as int) =~= whole.take(start as int) + per[m]) by {
            assert forall|k: int| 0 <= k < per[m].len() implies #[trigger] per[m][k] == whole[start
                + k] by {
                assert(texts.flatten()[start + k] == texts[m][k]);
                assert(slice(texts, outcomes, m)[k] == outcomes[start + k]);
            }
        }
    }
}

/// The outcomes of each part are outcomes its expressions may have.
proof fn shares_may_come(
    texts: Seq<Seq<Seq<char>>>,
    outcomes: Seq<Result<Value, ExprFault>>,
    context: JsonModel,
    t: TaggedNode,
    i: int,
)
    requires
        outcomes.len() == texts.flatten().len(),
        forall|k: int|
            0 <= k < outcomes.len() ==> may_see(
                context,
                texts.flatten()[k],
                #[trigger] outcomes[k],
            ),
        0 <= i < texts.len(),
        texts[i] == expressions(t),
    ensures
        may_become(t, context, yaml_json(t, shares(texts, outcomes)[i], 0)),
{
    chained_parts(texts, i);
    expressions_are_counted(t);
    let own = slice(texts, outcomes, i);
    let start = texts.take(i).flatten().len();
    assert forall|k: int| 0 <= k < own.len() implies may_see(
        context,
        expressions(t)[k],
        #[trigger] own[k],
    ) by {
        assert(own[k] == outcomes[start + k]);
        assert(texts.flatten()[start + k] == texts[i][k]);
        assert(may_see(context, texts.flatten()[start + k], outcomes[start + k]));
    }
    assert(shares(texts, outcomes)[i] == all_explained(expressions(t), own));
}

/// A mapping becomes what it becomes with some results for each of its values, results with which
/// that value may be converted.
proof fn members_share_outcomes(
    members: Vec<TaggedMember>,
    context: JsonModel,
    r: Converted,
) -> (per: Seq<Seq<Converted>>)
    requires
        may_become(TaggedNode { tag: None, node: YamlNode::Mapping(members) }, context, r),
    ensures
        per.len() == members@.len(),
        forall|i: int|
            0 <= i < per.len() ==> (#[trigger] per[i]).len() == expressions(
                members@[i].value,
            ).len(),
        r == yaml_json(
            TaggedNode { tag: None, node: YamlNode::Mapping(members) },
            per.flatten(),
            0,
        ),
        forall|i: int|
            0 <= i < per.len() ==> may_become(
                members@[i].value,
                context,
                yaml_json(members@[i].value, #[trigger] per[i], 0),
            ),
{
    let t = TaggedNode { tag: None, node: YamlNode::Mapping(members) };
    let texts = Seq::new(members@.len(), |i: int| expressions(members@[i].value));
    expressions_come_in_order(t);
    expressions_are_counted(t);
    assert(expressions(t) == texts.flatten());
    let outcomes = choose|outcomes: Seq<Result<Value, ExprFault>>|
        outcomes.len() == expr_count(t) && (forall|k: int|
            0 <= k < outcomes.len() ==> may_see(
                context,
                expressions(t)[k],
                #[trigger] outcomes[k],
            )) && r == yaml_json(t, #[trigger] all_explained(expressions(t), outcomes), 0);
    let per = shares(texts, outcomes);
    shares_make_the_whole(texts, outcomes, texts.len());
    assert(texts.take(texts.len() as int) =~= texts);
    assert(per.take(per.len() as int) =~= per);
    assert(per.flatten() =~= all_explained(expressions(t), outcomes));
    assert forall|i: int| 0 <= i < per.len() implies (#[trigger] per[i]).len() == expressions(
        members@[i].value,
    ).len() by {
        chained_parts(texts, i);
    }
    assert forall|i: int| 0 <= i < per.len() implies may_become(
        members@[i].value,
        context,
        yaml_json(members@[i].value, #[trigger] per[i], 0),
    ) by {
        shares_may_come(texts, outcomes, context, members@[i].value, i);
    }
    per
}

/// A mapping becomes an object that has under each key what the value of the last member with
/// that key may become by itself, and no other keys. It is refused only as one of its values may
/// be.
pub proof fn mappings_become_objects(
    members: Vec<TaggedMember>,
    context: JsonModel,
    r: Converted,
)
    requires
        may_become(TaggedNode { tag: None, node: YamlNode::Mapping(members) }, context, r),
    ensures
        match r {
            Ok(JsonModel::Object(inner)) => {
                &&& keys_differ(inner)
                &&& forall|i: int|
                    0 <= i < members@.len() && last_of_its_key(
                        members@,
                        members@.len() as int,
                        i,
                    ) ==> exists|v: JsonModel| #[trigger]
                        inner.contains(((#[trigger] members@[i]).key@, v)) && may_become(
                            members@[i].value,
                            context,
                            Ok(v),
                        )
                &&& forall|p: int|
                    0 <= p < inner.len() ==> exists|i: int|
                        0 <= i < members@.len() && #[trigger] members@[i].key@ == (
                        #[trigger] inner[p]).0
            },
            Ok(_) => false,
            Err(error) => exists|i: int|
                0 <= i < members@.len() && may_become(
                    (#[trigger] members@[i]).value,
                    context,
                    Err(error),
                ),
        },
{
    let per = members_share_outcomes(members, context, r);
    members_are_converted_on_their_own(members, per);
    match r {
        Ok(JsonModel::Object(inner)) => {
            assert forall|i: int|
                0 <= i < members@.len() && last_of_its_key(
                    members@,
                    members@.len() as int,
                    i,
                ) implies exists|v: JsonModel| #[trigger]
                inner.contains(((#[trigger] members@[i]).key@, v)) && may_become(
                    members@[i].value,
                    context,
                    Ok(v),
                ) by {
                let v = yaml_json(members@[i].value, per[i], 0)->Ok_0;
                assert(may_become(members@[i].value, context, yaml_json(members@[i].value, per[i], 0)));
                assert(inner.contains((members@[i].key@, v)));
            }
        },
        Ok(_) => {},
        Err(error) => {
            let i = choose|i: int|
                0 <= i < members@.len() && yaml_json(members@[i].value, #[trigger] per[i], 0)
                    == Err::<JsonModel, LoaderErrorModel>(error);
            assert(may_become(members@[i].value, context, Err(error)));
        },
    }
}

/// A list becomes an array of what its items may become by themselves, in their order. It is
/// refused only as one of its items may be.
pub proof fn lists_become_arrays(items: Vec<TaggedNode>, context: JsonModel, r: Converted)
    requires
        may_become(TaggedNode { tag: None, node: YamlNode::Sequence(items) }, context, r),
    ensures
        match r {
            Ok(JsonModel::Array(inner)) => {
                &&& inner.len() == items@.len()
                &&& forall|i: int|
                    0 <= i < inner.len() ==> may_become(items@[i], context, Ok(#[trigger] inner[i]))
            },
            Ok(_) => false,
            Err(error) => exists|i: int|
                0 <= i < items@.len() && may_become(#[trigger] items@[i], context, Err(error)),
        },
{
    let t = TaggedNode { tag: None, node: YamlNode::Sequence(items) };
    let texts = Seq::new(items@.len(), |i: int| expressions(items@[i]));
    expressions_come_in_order(t);
    expressions_are_counted(t);
    assert(expressions(t) == texts.flatten());
    let outcomes = choose|outcomes: Seq<Result<Value, ExprFault>>|
        outcomes.len() == expr_count(t) && (forall|k: int|
            0 <= k < outcomes.len() ==> may_see(
                context,
                expressions(t)[k],
                #[trigger] outcomes[k],
            )) && r == yaml_json(t, #[trigger] all_explained(expressions(t), outcomes), 0);
    let per = shares(texts, outcomes);
    shares_make_the_whole(texts, outcomes, texts.len());
    assert(texts.take(texts.len() as int) =~= texts);
    assert(per.take(per.len() as int) =~= per);
    assert(per.flatten() =~= all_explained(expressions(t), outcomes));
    assert forall|i: int| 0 <= i < per.len() implies (#[trigger] per[i]).len() == expressions(
        items@[i],
    ).len() by {
        chained_parts(texts, i);
    }
    items_are_converted_on_their_own(items, per);
    match r {
        Ok(JsonModel::Array(inner)) => {
            assert forall|i: int| 0 <= i < inner.len() implies may_become(
                items@[i],
                context,
                Ok(#[trigger] inner[i]),
            ) by {
                shares_may_come(texts, outcomes, context, items@[i], i);
            }
        },
        Ok(_) => {},
        Err(error) => {
            let i = choose|i: int|
                0 <= i < items@.len() && yaml_json(items@[i], #[trigger] per[i], 0) == Err::<
                    JsonModel,
                    LoaderErrorModel,
                >(error);
            shares_may_come(texts, outcomes, context, items@[i], i);
            assert(may_become(items@[i], context, Err(error)));
        },
    }
}

/// A value tagged `!expr` becomes what its text may evaluate to in the context. Any other tag,
/// and an expression that is no text, is refused.
pub proof fn expressions_become_outcomes(t: TaggedNode, context: JsonModel, r: Converted)
    requires
        t.tag is Some,
        may_become(t, context, r),
    ensures
        t.tag->Some_0@ != "!expr"@ || !(t.node is Text) ==> r is Err,
        t.tag->Some_0@ == "!expr"@ ==> (t.node matches YamlNode::Text(text) ==> exists|
            outcome: Result<Value, ExprFault>,
        | #[trigger]
            may_see(context, text@, outcome) && match outcome {
                Ok(value) => r == Ok::<JsonModel, LoaderErrorModel>(value@),
                Err(_) => r is Err,
            }),
{
    let outcomes = choose|outcomes: Seq<Result<Value, ExprFault>>|
        outcomes.len() == expr_count(t) && (forall|k: int|
            0 <= k < outcomes.len() ==> may_see(
                context,
                expressions(t)[k],
                #[trigger] outcomes[k],
            )) && r == yaml_json(t, #[trigger] all_explained(expressions(t), outcomes), 0);
    if is_expr(t.tag) {
        if let YamlNode::Text(text) = t.node {
            assert(expressions(t)[0] == text@);
            assert(may_see(context, text@, outcomes[0]));
        }
    }
}

/// A value without a tag that is no list and no mapping stays what it is. Only a number that has
/// no JSON spelling is refused.
pub proof fn scalars_stay(t: TaggedNode, context: JsonModel, r: Converted)
    requires
        t.tag is None,
        may_become(t, context, r),
    ensures
        t.node is Null ==> r == Ok::<JsonModel, LoaderErrorModel>(JsonModel::Null),
        t.node matches YamlNode::Bool(b) ==> r == Ok::<JsonModel, LoaderErrorModel>(
            JsonModel::Bool(b),
        ),
        t.node matches YamlNode::Text(text) ==> r == Ok::<JsonModel, LoaderErrorModel>(
            JsonModel::Text(text@),
        ),
        t.node matches YamlNode::Float(Some(text)) ==> r == Ok::<JsonModel, LoaderErrorModel>(
            JsonModel::Number(text@),
        ),
        t.node matches YamlNode::Float(None) ==> r is Err,
        t.node matches YamlNode::Unsigned(n) ==> r matches Ok(JsonModel::Number(text))
            && number_of(text) == n,
        t.node matches YamlNode::Integer(n) ==> r matches Ok(JsonModel::Number(text)) && if n < 0 {
            text.len() > 0 && text[0] == '-' && number_of(text.drop_first()) == -n
        } else {
            number_of(text) == n
        },
{
    match t.node {
        YamlNode::Unsigned(n) => {
            decimals_read_back(n as nat);
        },
        YamlNode::Integer(n) => {
            reveal_strlit("-");
            if n < 0 {
                decimals_read_back((-n) as nat);
                assert(("-"@ + decimal((-n) as nat)).drop_first() =~= decimal((-n) as nat));
            } else {
                decimals_read_back(n as nat);
            }
        },
        _ => {},
    }
}

} // verus!
