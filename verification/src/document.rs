//! Configuration documents: formats, decoding, patches and embedded expressions.
use crate::entry::{
    children_model, entries_wf, entry_models, entry_wf, EntryId, EntryModel, EntrySpec,
    IsolationRule, LoaderError, LoaderErrorModel, RuleModel,
};
use crate::expression::{
    expr_count, may_become, value_model, yaml_json, yaml_to_json, ExprEvaluator, TaggedNode,
};
use crate::json::{parse_json, parsed_json};
use crate::order::{
    contents, contents_insert, entries_facts, entry_keys, in_text_order, keys_in_order, same_text,
    TextMap,
};
use crate::text::{characters, decimal, group_views, push_decimal, views};
use crate::tree::{
    change_entry, changed, drop_entry, find_entry, find_in, insert_entry, inserted, roots_match,
    without, EditModel, EntryEdit,
};
use crate::value::{
    array_model, deep_merge, item_models, key_position, key_position_facts, key_position_is,
    member, member_models, merged, object_model, JsonModel, Member, Value,
};
use vstd::prelude::*;

verus! {

broadcast use group_views;

#[derive(Clone, Copy, Debug, PartialEq, Eq, Structural)]
pub enum IncludeFormat {
    Json,
    Yaml,
}

/// Where the last name of a path ends: trailing separators do not count, and neither do trailing
/// `.` components.
pub open spec fn name_end(path: Seq<char>) -> int
    decreases path.len(),
{
    if path.len() > 0 && path.last() == '/' {
        name_end(path.drop_last())
    } else if path.len() > 1 && path.last() == '.' && path[path.len() - 2] == '/' {
        name_end(path.drop_last())
    } else {
        path.len() as int
    }
}

/// The name that ends at `end` is `..`.
pub open spec fn names_parent(path: Seq<char>, end: int) -> bool {
    &&& 2 <= end <= path.len()
    &&& path[end - 1] == '.'
    &&& path[end - 2] == '.'
    &&& end == 2 || path[end - 3] == '/'
}

/// The extension of a path whose last name ends at `end`: what follows the last dot of the name,
/// if that dot does not start the name.
pub open spec fn extension_before(path: Seq<char>, end: int, dot: int) -> Option<Seq<char>>
    decreases dot,
{
    if dot <= 0 || dot > end || end > path.len() || path[dot - 1] == '/' {
        None
    } else if path[dot - 1] == '.' {
        if dot - 1 == 0 || path[dot - 2] == '/' {
            None
        } else {
            Some(path.subrange(dot, end))
        }
    } else {
        extension_before(path, end, dot - 1)
    }
}

/// The extension of a path. A path that ends in `..` has no name and so no extension.
pub open spec fn extension_of(path: Seq<char>) -> Option<Seq<char>> {
    let end = name_end(path);
    if names_parent(path, end) {
        None
    } else {
        extension_before(path, end, end)
    }
}

/// The format of a file by its extension.
pub open spec fn format_of(path: Seq<char>) -> Option<IncludeFormat> {
    match extension_of(path) {
        Some(extension) => if extension == "json"@ {
            Some(IncludeFormat::Json)
        } else if extension == "yaml"@ || extension == "yml"@ {
            Some(IncludeFormat::Yaml)
        } else {
            None
        },
        None => None,
    }
}

fn extension(path: &str) -> (r: Option<String>)
    ensures
        match (r, extension_of(path@)) {
            (Some(found), Some(expected)) => found@ == expected,
            (None, None) => true,
            _ => false,
        },
{
    let letters = characters(path);
    let mut end: usize = letters.len();
    proof {
        assert(letters@.take(end as int) =~= path@);
    }
    while end > 0 && (letters[end - 1] == '/' || end > 1 && letters[end - 1] == '.'
        && letters[end - 2] == '/')
        invariant
            letters@ == path@,
            end <= letters.len(),
            name_end(path@) == name_end(path@.take(end as int)),
        decreases end,
    {
        proof {
            let front = path@.take(end as int);
            assert(front.drop_last() =~= path@.take(end - 1));
            assert(front.last() == path@[end - 1]);
            if end > 1 {
                assert(front[end - 2] == path@[end - 2]);
            }
        }
        end = end - 1;
    }
    proof {
        let front = path@.take(end as int);
        if end > 0 {
            assert(front.last() == path@[end - 1]);
        }
        if end > 1 {
            assert(front[end - 2] == path@[end - 2]);
        }
        assert(name_end(path@) == end);
    }
    if end >= 2 && letters[end - 1] == '.' && letters[end - 2] == '.' && (end == 2
        || letters[end - 3] == '/') {
        return None;
    }
    let mut dot: usize = end;
    while dot > 0
        invariant
            letters@ == path@,
            dot <= end <= letters.len(),
            extension_before(path@, end as int, end as int) == extension_before(
                path@,
                end as int,
                dot as int,
            ),
            name_end(path@) == end,
            !names_parent(path@, end as int),
        decreases dot,
    {
        let c = letters[dot - 1];
        if c == '/' {
            return None;
        }
        if c == '.' {
            if dot == 1 || letters[dot - 2] == '/' {
                return None;
            }
            return Some(path.substring_char(dot, end).to_owned());
        }
        dot = dot - 1;
    }
    None
}

impl IncludeFormat {
    /// Infers JSON or YAML from a file extension.
    pub fn from_path(path: &str) -> (r: Result<IncludeFormat, LoaderError>)
        ensures
            match (r, format_of(path@)) {
                (Ok(format), Some(expected)) => format == expected,
                (Err(error), None) => error@ == LoaderErrorModel::Include(
                    "unsupported include format for "@ + path@,
                ),
                _ => false,
            },
    {
        if let Some(found) = extension(path) {
            if same_text(found.as_str(), "json") {
                return Ok(IncludeFormat::Json);
            }
            if same_text(found.as_str(), "yaml") || same_text(found.as_str(), "yml") {
                return Ok(IncludeFormat::Yaml);
            }
        }
        let mut message = "unsupported include format for ".to_owned();
        message.append(path);
        Err(LoaderError::Include(message))
    }
}

// ---------------------------------------------------------------------------------------------
// Entries as JSON
// ---------------------------------------------------------------------------------------------

/// The members of a JSON object for a map, in key order.
pub open spec fn map_members(map: Map<Seq<char>, JsonModel>) -> Seq<(Seq<char>, JsonModel)> {
    let keys = in_text_order(map.dom());
    Seq::new(keys.len(), |i: int| (keys[i], map[keys[i]]))
}

/// An isolation rule as JSON.
pub open spec fn rule_json(rule: RuleModel) -> JsonModel {
    match rule {
        RuleModel::Local(own) => JsonModel::Bool(own),
        RuleModel::Global(label) => JsonModel::Text(label),
    }
}

/// Isolation rules as JSON members, in service order.
pub open spec fn rule_members(rules: Map<Seq<char>, RuleModel>) -> Seq<(Seq<char>, JsonModel)> {
    let keys = in_text_order(rules.dom());
    Seq::new(keys.len(), |i: int| (keys[i], rule_json(rules[keys[i]])))
}

/// An entry as a JSON object, members in key order.
pub open spec fn entry_json(e: EntryModel) -> JsonModel
    decreases e,
{
    JsonModel::Object(
        seq![
            (
                "children"@,
                JsonModel::Array(
                    Seq::new(
                        e.children.len(),
                        |i: int|
                            if 0 <= i < e.children.len() {
                                entry_json(e.children[i])
                            } else {
                                JsonModel::Null
                            },
                    ),
                ),
            ),
            ("component"@, JsonModel::Text(e.component)),
            ("config"@, e.config),
            ("disabled"@, JsonModel::Bool(e.disabled)),
            ("group"@, JsonModel::Bool(e.group)),
            ("id"@, JsonModel::Text(e.id)),
            ("intercept"@, JsonModel::Object(map_members(e.intercept))),
            ("isolate"@, JsonModel::Object(rule_members(e.isolate))),
        ],
    )
}

/// Entries as JSON, in order.
pub open spec fn entries_json(entries: Seq<EntryModel>) -> Seq<JsonModel> {
    Seq::new(entries.len(), |i: int| entry_json(entries[i]))
}

fn value_members(map: &TextMap<Value>) -> (r: Vec<Member>)
    requires
        map.wf(),
    ensures
        member_models(r@) == map_members(contents(map@)),
{
    let ghost entries = map.entries@;
    let ghost keys = entry_keys(entries);
    let mut out: Vec<Member> = Vec::new();
    let mut i: usize = 0;
    while i < map.entries.len()
        invariant
            map.wf(),
            entries == map.entries@,
            i <= entries.len(),
            out@.len() == i,
            forall|k: int|
                0 <= k < i ==> (#[trigger] out@[k])@ == (entries[k].key@, entries[k].value@),
        decreases entries.len() - i,
    {
        out.push(
            Member { key: map.entries[i].key.clone(), value: map.entries[i].value.duplicate() },
        );
        i = i + 1;
    }
    proof {
        entries_facts(entries);
        keys_in_order(entries);
        assert(contents(map@).dom() =~= map@.dom());
        assert(member_models(out@) =~= map_members(contents(map@))) by {
            assert forall|k: int| 0 <= k < keys.len() implies member_models(out@)[k]
                == map_members(contents(map@))[k] by {
                assert(keys[k] == entries[k].key@);
                assert(map@[entries[k].key@] == entries[k].value);
            }
        }
    }
    out
}

fn isolate_members(map: &TextMap<IsolationRule>) -> (r: Vec<Member>)
    requires
        map.wf(),
    ensures
        member_models(r@) == rule_members(contents(map@)),
{
    let ghost entries = map.entries@;
    let ghost keys = entry_keys(entries);
    let mut out: Vec<Member> = Vec::new();
    let mut i: usize = 0;
    while i < map.entries.len()
        invariant
            map.wf(),
            entries == map.entries@,
            i <= entries.len(),
            out@.len() == i,
            forall|k: int|
                0 <= k < i ==> (#[trigger] out@[k])@ == (
                    entries[k].key@,
                    rule_json(entries[k].value@),
                ),
        decreases entries.len() - i,
    {
        let value = match &map.entries[i].value {
            IsolationRule::Local(own) => Value::Bool(*own),
            IsolationRule::Global(label) => Value::Text(label.clone()),
        };
        out.push(Member { key: map.entries[i].key.clone(), value });
        i = i + 1;
    }
    proof {
        entries_facts(entries);
        keys_in_order(entries);
        assert(contents(map@).dom() =~= map@.dom());
        assert(member_models(out@) =~= rule_members(contents(map@))) by {
            assert forall|k: int| 0 <= k < keys.len() implies member_models(out@)[k]
                == rule_members(contents(map@))[k] by {
                assert(keys[k] == entries[k].key@);
                assert(map@[entries[k].key@] == entries[k].value);
            }
        }
    }
    out
}

/// Entries as JSON values.
pub fn entries_to_values(entries: &Vec<EntrySpec>) -> (r: Vec<Value>)
    requires
        entries_wf(entries@),
    ensures
        item_models(r@) == entries_json(entry_models(entries@)),
    decreases entries,
{
    let mut out: Vec<Value> = Vec::new();
    let mut i: usize = 0;
    while i < entries.len()
        invariant
            entries_wf(entries@),
            i <= entries.len(),
            out@.len() == i,
            forall|k: int| 0 <= k < i ==> (#[trigger] out@[k])@ == entry_json(entries@[k]@),
        decreases entries.len() - i,
    {
        out.push(entry_to_value(&entries[i]));
        i = i + 1;
    }
    proof {
        assert(item_models(out@) =~= entries_json(entry_models(entries@)));
    }
    out
}

fn pair(key: &str, value: Value) -> (r: Member)
    ensures
        r@ == (key@, value@),
{
    Member { key: key.to_owned(), value }
}

/// An entry as a JSON value.
pub fn entry_to_value(entry: &EntrySpec) -> (r: Value)
    requires
        entry_wf(*entry),
    ensures
        r@ == entry_json(entry@),
    decreases entry,
{
    let children = entries_to_values(&entry.children);
    let intercept = value_members(&entry.intercept);
    let isolate = isolate_members(&entry.isolate);
    proof {
        children_model(*entry);
        array_model(children);
        object_model(intercept);
        object_model(isolate);
    }
    let mut members: Vec<Member> = Vec::new();
    members.push(pair("children", Value::Array(children)));
    members.push(pair("component", Value::Text(entry.component.clone())));
    members.push(pair("config", entry.config.duplicate()));
    members.push(pair("disabled", Value::Bool(entry.disabled)));
    members.push(pair("group", Value::Bool(entry.group)));
    members.push(pair("id", Value::Text(entry.id.value.clone())));
    members.push(pair("intercept", Value::Object(intercept)));
    members.push(pair("isolate", Value::Object(isolate)));
    proof {
        object_model(members);
        let e = entry@;
        let expected = entry_json(e)->Object_0;
        let inner = expected[0].1->Array_0;
        assert(inner =~= entries_json(e.children));
        assert(member_models(members@) =~= expected);
    }
    Value::Object(members)
}

/// A field of an entry: by name in an object, by position in a list.
pub open spec fn field(v: JsonModel, index: int, name: Seq<char>) -> Option<JsonModel> {
    match v {
        JsonModel::Object(members) => member(members, name),
        JsonModel::Array(items) => if 0 <= index < items.len() {
            Some(items[index])
        } else {
            None
        },
        _ => None,
    }
}

/// An optional text field.
pub open spec fn text_field(v: Option<JsonModel>) -> Option<Seq<char>> {
    match v {
        None => Some(Seq::empty()),
        Some(JsonModel::Text(text)) => Some(text),
        Some(_) => None,
    }
}

/// An optional flag, off by default.
pub open spec fn flag_field(v: Option<JsonModel>) -> Option<bool> {
    match v {
        None => Some(false),
        Some(JsonModel::Bool(flag)) => Some(flag),
        Some(_) => None,
    }
}

/// The map of the first `n` members; a repeated key keeps its last value.
pub open spec fn members_map(members: Seq<(Seq<char>, JsonModel)>, n: nat) -> Map<
    Seq<char>,
    JsonModel,
>
    decreases n,
{
    if n == 0 {
        Map::empty()
    } else {
        members_map(members, (n - 1) as nat).insert(members[n - 1].0, members[n - 1].1)
    }
}

/// An optional object field.
pub open spec fn map_field(v: Option<JsonModel>) -> Option<Map<Seq<char>, JsonModel>> {
    match v {
        None => Some(Map::empty()),
        Some(JsonModel::Object(members)) => Some(members_map(members, members.len())),
        Some(_) => None,
    }
}

/// An isolation rule: a flag or a label.
pub open spec fn rule_of(v: JsonModel) -> Option<RuleModel> {
    match v {
        JsonModel::Bool(own) => Some(RuleModel::Local(own)),
        JsonModel::Text(label) => Some(RuleModel::Global(label)),
        _ => None,
    }
}

/// The rules of the first `n` members, if each is a rule.
pub open spec fn rules_map(members: Seq<(Seq<char>, JsonModel)>, n: nat) -> Option<
    Map<Seq<char>, RuleModel>,
>
    decreases n,
{
    if n == 0 {
        Some(Map::empty())
    } else {
        match (rules_map(members, (n - 1) as nat), rule_of(members[n - 1].1)) {
            (Some(map), Some(rule)) => Some(map.insert(members[n - 1].0, rule)),
            _ => None,
        }
    }
}

/// An optional field of isolation rules.
pub open spec fn rules_field(v: Option<JsonModel>) -> Option<Map<Seq<char>, RuleModel>> {
    match v {
        None => Some(Map::empty()),
        Some(JsonModel::Object(members)) => rules_map(members, members.len()),
        Some(_) => None,
    }
}

/// An optional field of nested values.
pub open spec fn list_field(v: Option<JsonModel>) -> Option<Seq<JsonModel>> {
    match v {
        None => Some(Seq::empty()),
        Some(JsonModel::Array(items)) => Some(items),
        Some(_) => None,
    }
}

/// How deeply values are nested.
pub open spec fn nesting(v: JsonModel) -> nat
    decreases v, 0nat,
{
    match v {
        JsonModel::Array(items) => 1 + deepest(items, items.len()),
        JsonModel::Object(members) => 1 + deepest_member(members, members.len()),
        _ => 0,
    }
}

/// How deeply the first `n` items are nested.
pub open spec fn deepest(items: Seq<JsonModel>, n: nat) -> nat
    decreases items, n,
{
    if n == 0 || n > items.len() {
        0
    } else {
        let before = deepest(items, (n - 1) as nat);
        let this = nesting(items[n - 1]);
        if this > before {
            this
        } else {
            before
        }
    }
}

/// How deeply the first `n` members are nested.
pub open spec fn deepest_member(members: Seq<(Seq<char>, JsonModel)>, n: nat) -> nat
    decreases members, n,
{
    if n == 0 || n > members.len() {
        0
    } else {
        let before = deepest_member(members, (n - 1) as nat);
        let this = nesting(members[n - 1].1);
        if this > before {
            this
        } else {
            before
        }
    }
}

proof fn item_nesting(items: Seq<JsonModel>, n: nat, i: int)
    requires
        0 <= i < n <= items.len(),
    ensures
        nesting(items[i]) <= deepest(items, n),
    decreases n,
{
    if i < n - 1 {
        item_nesting(items, (n - 1) as nat, i);
    }
}

proof fn member_nesting(members: Seq<(Seq<char>, JsonModel)>, n: nat, i: int)
    requires
        0 <= i < n <= members.len(),
    ensures
        nesting(members[i].1) <= deepest_member(members, n),
    decreases n,
{
    if i < n - 1 {
        member_nesting(members, (n - 1) as nat, i);
    }
}

proof fn field_nesting(v: JsonModel, index: int, name: Seq<char>)
    requires
        field(v, index, name) is Some,
    ensures
        nesting(field(v, index, name)->Some_0) < nesting(v),
{
    match v {
        JsonModel::Object(members) => {
            key_position_facts(members, name);
            member_nesting(members, members.len(), key_position(members, name));
        },
        JsonModel::Array(items) => {
            item_nesting(items, items.len(), index);
        },
        _ => {},
    }
}

/// Why a value does not describe an entry, its children aside. Only the identifier is mandatory,
/// and fields that entries do not have are ignored.
pub open spec fn entry_fault(v: JsonModel) -> Option<Seq<char>> {
    if !(v is Object || v is Array && v->Array_0.len() <= 8) {
        Some("entry must be an object"@)
    } else if field(v, 0, "id"@) is None {
        Some("missing field `id`"@)
    } else if !(field(v, 0, "id"@)->Some_0 is Text) {
        Some("entry field `id` must be a string"@)
    } else if text_field(field(v, 1, "component"@)) is None {
        Some("entry field `component` must be a string"@)
    } else if flag_field(field(v, 3, "disabled"@)) is None {
        Some("entry field `disabled` must be a boolean"@)
    } else if flag_field(field(v, 4, "group"@)) is None {
        Some("entry field `group` must be a boolean"@)
    } else if map_field(field(v, 5, "intercept"@)) is None {
        Some("entry field `intercept` must be an object"@)
    } else if rules_field(field(v, 6, "isolate"@)) is None {
        Some("entry field `isolate` must map services to booleans or labels"@)
    } else if list_field(field(v, 7, "children"@)) is None {
        Some("entry field `children` must be an array"@)
    } else {
        None
    }
}

/// An entry read from JSON, or why the value does not describe one.
pub open spec fn entry_of(v: JsonModel) -> Result<EntryModel, Seq<char>>
    decreases nesting(v), 0nat,
    via entry_of_terminates
{
    match entry_fault(v) {
        Some(message) => Err(message),
        None => {
            let children = list_field(field(v, 7, "children"@))->Some_0;
            match entries_of(children, children.len()) {
                Err(message) => Err(message),
                Ok(entries) => Ok(
                    EntryModel {
                        id: field(v, 0, "id"@)->Some_0->Text_0,
                        component: text_field(field(v, 1, "component"@))->Some_0,
                        config: match field(v, 2, "config"@) {
                            Some(value) => value,
                            None => JsonModel::Null,
                        },
                        disabled: flag_field(field(v, 3, "disabled"@))->Some_0,
                        group: flag_field(field(v, 4, "group"@))->Some_0,
                        intercept: map_field(field(v, 5, "intercept"@))->Some_0,
                        isolate: rules_field(field(v, 6, "isolate"@))->Some_0,
                        children: entries,
                    },
                ),
            }
        },
    }
}

/// The first `n` values read as entries; the first one that is not an entry decides.
pub open spec fn entries_of(items: Seq<JsonModel>, n: nat) -> Result<Seq<EntryModel>, Seq<char>>
    decreases deepest(items, n), 1nat, n,
    via entries_of_terminates
{
    if n == 0 || n > items.len() {
        Ok(Seq::empty())
    } else {
        match entries_of(items, (n - 1) as nat) {
            Err(message) => Err(message),
            Ok(before) => match entry_of(items[n - 1]) {
                Err(message) => Err(message),
                Ok(entry) => Ok(before.push(entry)),
            },
        }
    }
}

#[via_fn]
proof fn entry_of_terminates(v: JsonModel) {
    if field(v, 7, "children"@) is Some {
        field_nesting(v, 7, "children"@);
    }
}

#[via_fn]
proof fn entries_of_terminates(items: Seq<JsonModel>, n: nat) {
}

proof fn bad_item_decides(items: Seq<JsonModel>, n: nat, m: nat)
    requires
        n <= m <= items.len(),
        entries_of(items, n) is Err,
    ensures
        entries_of(items, m) == entries_of(items, n),
    decreases m - n,
{
    if n < m {
        bad_item_decides(items, n, (m - 1) as nat);
    }
}

fn get_field<'a>(v: &'a Value, index: usize, name: &str) -> (r: Option<&'a Value>)
    ensures
        match (r, field(v@, index as int, name@)) {
            (Some(value), Some(expected)) => value@ == expected,
            (None, None) => true,
            _ => false,
        },
        r matches Some(value) ==> decreases_to!(v => value),
{
    match v {
        Value::Object(members) => {
            proof {
                object_model(*members);
                assert(member_models(members@).len() == members@.len());
            }
            let i = crate::value::find_member(members, &name.to_owned());
            if i < members.len() {
                proof {
                    assert(member_models(members@)[i as int] == members@[i as int]@);
                    assert(decreases_to!(members => members@[i as int]));
                }
                Some(&members[i].value)
            } else {
                None
            }
        },
        Value::Array(items) => {
            proof {
                array_model(*items);
                assert(item_models(items@).len() == items@.len());
            }
            if index < items.len() {
                proof {
                    assert(item_models(items@)[index as int] == items@[index as int]@);
                    assert(decreases_to!(items => items@[index as int]));
                }
                Some(&items[index])
            } else {
                None
            }
        },
        _ => None,
    }
}

fn read_text(v: Option<&Value>) -> (r: Option<String>)
    ensures
        match (r, text_field(crate::document::content(v))) {
            (Some(text), Some(expected)) => text@ == expected,
            (None, None) => true,
            _ => false,
        },
{
    match v {
        None => Some(String::new()),
        Some(Value::Text(text)) => Some(text.clone()),
        Some(_) => None,
    }
}

/// The content of an optional value.
pub open spec fn content(v: Option<&Value>) -> Option<JsonModel> {
    match v {
        Some(value) => Some(value@),
        None => None,
    }
}

fn read_flag(v: Option<&Value>) -> (r: Option<bool>)
    ensures
        r == flag_field(content(v)),
{
    match v {
        None => Some(false),
        Some(Value::Bool(flag)) => Some(*flag),
        Some(_) => None,
    }
}

fn read_map(v: Option<&Value>) -> (r: Option<TextMap<Value>>)
    ensures
        match (r, map_field(content(v))) {
            (Some(map), Some(expected)) => map.wf() && contents(map@) == expected,
            (None, None) => true,
            _ => false,
        },
{
    match v {
        None => {
            let map: TextMap<Value> = TextMap::new();
            proof {
                assert(contents(map@) =~= Map::empty());
            }
            Some(map)
        },
        Some(Value::Object(members)) => {
            let ghost models = member_models(members@);
            let mut map: TextMap<Value> = TextMap::new();
            let mut i: usize = 0;
            proof {
                object_model(*members);
                assert(models.len() == members@.len());
                assert(contents(map@) =~= Map::empty());
            }
            while i < members.len()
                invariant
                    models == member_models(members@),
                    i <= members.len(),
                    map.wf(),
                    contents(map@) == members_map(models, i as nat),
                decreases members.len() - i,
            {
                let ghost before = map@;
                let value = members[i].value.duplicate();
                proof {
                    assert(models[i as int] == members@[i as int]@);
                    contents_insert(before, members@[i as int].key@, value);
                }
                let _ = map.insert(members[i].key.clone(), value);
                i = i + 1;
            }
            Some(map)
        },
        Some(_) => None,
    }
}

fn read_rules(v: Option<&Value>) -> (r: Option<TextMap<IsolationRule>>)
    ensures
        match (r, rules_field(content(v))) {
            (Some(map), Some(expected)) => map.wf() && contents(map@) == expected,
            (None, None) => true,
            _ => false,
        },
{
    match v {
        None => {
            let map: TextMap<IsolationRule> = TextMap::new();
            proof {
                assert(contents(map@) =~= Map::empty());
            }
            Some(map)
        },
        Some(Value::Object(members)) => {
            let ghost models = member_models(members@);
            let mut map: TextMap<IsolationRule> = TextMap::new();
            let mut i: usize = 0;
            proof {
                object_model(*members);
                assert(models.len() == members@.len());
                assert(contents(map@) =~= Map::empty());
            }
            while i < members.len()
                invariant
                    models == member_models(members@),
                    models.len() == members@.len(),
                    rules_field(content(v)) == rules_map(models, models.len()),
                    i <= members.len(),
                    map.wf(),
                    rules_map(models, i as nat) == Some(contents(map@)),
                decreases members.len() - i,
            {
                let ghost before = map@;
                proof {
                    assert(models[i as int] == members@[i as int]@);
                }
                let rule = match &members[i].value {
                    Value::Bool(own) => IsolationRule::Local(*own),
                    Value::Text(label) => IsolationRule::Global(label.clone()),
                    _ => {
                        proof {
                            bad_rule_decides(models, (i + 1) as nat, models.len());
                        }
                        return None;
                    },
                };
                proof {
                    contents_insert(before, members@[i as int].key@, rule);
                }
                let _ = map.insert(members[i].key.clone(), rule);
                i = i + 1;
            }
            Some(map)
        },
        Some(_) => None,
    }
}

proof fn bad_rule_decides(members: Seq<(Seq<char>, JsonModel)>, n: nat, m: nat)
    requires
        n <= m <= members.len(),
        rules_map(members, n) is None,
    ensures
        rules_map(members, m) is None,
    decreases m - n,
{
    if n < m {
        bad_rule_decides(members, n, (m - 1) as nat);
    }
}

/// Reads an entry from a JSON value.
pub fn entry_from_value(v: &Value) -> (r: Result<EntrySpec, String>)
    ensures
        match (r, entry_of(v@)) {
            (Ok(entry), Ok(expected)) => entry_wf(entry) && entry@ == expected,
            (Err(message), Err(expected)) => message@ == expected,
            _ => false,
        },
    decreases v, 1nat,
{
    let shaped = match v {
        Value::Object(_) => true,
        Value::Array(items) => {
            proof {
                array_model(*items);
                assert(item_models(items@).len() == items@.len());
            }
            items.len() <= 8
        },
        _ => false,
    };
    if !shaped {
        return Err("entry must be an object".to_owned());
    }
    let id = match get_field(v, 0, "id") {
        None => {
            return Err("missing field `id`".to_owned());
        },
        Some(Value::Text(id)) => id.clone(),
        Some(_) => {
            return Err("entry field `id` must be a string".to_owned());
        },
    };
    let component = match read_text(get_field(v, 1, "component")) {
        None => {
            return Err("entry field `component` must be a string".to_owned());
        },
        Some(component) => component,
    };
    let config = match get_field(v, 2, "config") {
        Some(config) => config.duplicate(),
        None => Value::Null,
    };
    let disabled = match read_flag(get_field(v, 3, "disabled")) {
        None => {
            return Err("entry field `disabled` must be a boolean".to_owned());
        },
        Some(flag) => flag,
    };
    let group = match read_flag(get_field(v, 4, "group")) {
        None => {
            return Err("entry field `group` must be a boolean".to_owned());
        },
        Some(flag) => flag,
    };
    let intercept = match read_map(get_field(v, 5, "intercept")) {
        None => {
            return Err("entry field `intercept` must be an object".to_owned());
        },
        Some(map) => map,
    };
    let isolate = match read_rules(get_field(v, 6, "isolate")) {
        None => {
            return Err(
                "entry field `isolate` must map services to booleans or labels".to_owned(),
            );
        },
        Some(map) => map,
    };
    let children = match get_field(v, 7, "children") {
        None => {
            let none: Vec<EntrySpec> = Vec::new();
            proof {
                assert(entry_models(none@) =~= Seq::empty());
            }
            none
        },
        Some(Value::Array(items)) => {
            proof {
                array_model(*items);
                assert(item_models(items@).len() == items@.len());
            }
            match entries_from_values(items) {
                Err(message) => {
                    return Err(message);
                },
                Ok(children) => children,
            }
        },
        Some(_) => {
            return Err("entry field `children` must be an array".to_owned());
        },
    };
    let entry = EntrySpec {
        id: EntryId { value: id },
        component,
        config,
        disabled,
        group,
        intercept,
        isolate,
        children,
    };
    proof {
        children_model(entry);
    }
    Ok(entry)
}

/// Reads entries from JSON values.
pub fn entries_from_values(items: &Vec<Value>) -> (r: Result<Vec<EntrySpec>, String>)
    ensures
        match (r, entries_of(item_models(items@), items@.len())) {
            (Ok(entries), Ok(expected)) => entries_wf(entries@) && entry_models(entries@)
                == expected,
            (Err(message), Err(expected)) => message@ == expected,
            _ => false,
        },
    decreases items, 0nat,
{
    let ghost models = item_models(items@);
    let mut out: Vec<EntrySpec> = Vec::new();
    let mut i: usize = 0;
    proof {
        assert(entry_models(out@) =~= Seq::empty());
    }
    while i < items.len()
        invariant
            models == item_models(items@),
            i <= items.len(),
            entries_wf(out@),
            entries_of(models, i as nat) == Ok::<Seq<EntryModel>, Seq<char>>(entry_models(out@)),
        decreases items.len() - i,
    {
        proof {
            assert(models.len() == items@.len());
            assert(models[i as int] == items@[i as int]@);
            assert(decreases_to!(items => items@[i as int]));
        }
        match entry_from_value(&items[i]) {
            Err(message) => {
                proof {
                    bad_item_decides(models, (i + 1) as nat, items@.len());
                }
                return Err(message);
            },
            Ok(entry) => {
                let ghost before = entry_models(out@);
                let ghost this = entry@;
                out.push(entry);
                proof {
                    assert(entry_models(out@) =~= before.push(this));
                }
            },
        }
        i = i + 1;
    }
    Ok(out)
}

/// The entries of a document: its root if that is a list, or its member `entries`.
pub open spec fn document_entries(v: JsonModel) -> Result<Seq<EntryModel>, Seq<char>> {
    match v {
        JsonModel::Array(items) => entries_of(items, items.len()),
        JsonModel::Object(members) => match member(members, "entries"@) {
            Some(JsonModel::Array(items)) => entries_of(items, items.len()),
            Some(_) => Err("`entries` must be an array"@),
            None => Err("include root must be an entry array or contain `entries`"@),
        },
        _ => Err("include root must be an entry array or contain `entries`"@),
    }
}

/// Members in map order read back as the map.
proof fn map_reads_back(map: TextMap<Value>, n: nat)
    requires
        map.wf(),
        n <= map.entries@.len(),
    ensures
        ({
            let members = map_members(contents(map@));
            &&& members.len() == map.entries@.len()
            &&& members_map(members, n).dom() =~= entry_keys(map.entries@).take(n as int).to_set()
            &&& forall|k: int|
                0 <= k < n ==> members_map(members, n)[#[trigger] entry_keys(map.entries@)[k]]
                    == contents(map@)[entry_keys(map.entries@)[k]]
        }),
    decreases n,
{
    let entries = map.entries@;
    let keys = entry_keys(entries);
    entries_facts(entries);
    keys_in_order(entries);
    assert(contents(map@).dom() =~= map@.dom());
    let members = map_members(contents(map@));
    assert(members.len() == keys.len());
    if n > 0 {
        map_reads_back(map, (n - 1) as nat);
        keys_apart(keys, n);
        assert(members[n - 1] == (keys[n - 1], contents(map@)[keys[n - 1]]));
    } else {
        assert(keys.take(0).to_set() =~= Set::empty());
    }
}

/// Adding one more key of a sorted list adds exactly that key.
proof fn keys_apart(keys: Seq<Seq<char>>, n: nat)
    requires
        crate::order::sorted(keys),
        0 < n <= keys.len(),
    ensures
        keys.take(n as int).to_set() == keys.take(n - 1).to_set().insert(keys[n - 1]),
        forall|k: int| 0 <= k < n - 1 ==> #[trigger] keys[k] != keys[n - 1],
{
    let before = keys.take(n - 1);
    let after = keys.take(n as int);
    assert forall|t: Seq<char>| #[trigger]
        after.contains(t) <==> before.contains(t) || t == keys[n - 1] by {
        if after.contains(t) {
            let k = choose|k: int| 0 <= k < after.len() && after[k] == t;
            if k < n - 1 {
                assert(before[k] == t);
            }
        }
        if before.contains(t) {
            let k = choose|k: int| 0 <= k < before.len() && before[k] == t;
            assert(after[k] == t);
        }
        assert(after[n - 1] == keys[n - 1]);
    }
    assert(after.to_set() =~= before.to_set().insert(keys[n - 1]));
    assert forall|k: int| 0 <= k < n - 1 implies #[trigger] keys[k] != keys[n - 1] by {
        assert(crate::text::text_less(keys[k], keys[n - 1]));
        crate::order::text_less_irreflexive(keys[k]);
    }
}

/// Rules in map order read back as the rules.
proof fn rules_read_back(map: TextMap<IsolationRule>, n: nat)
    requires
        map.wf(),
        n <= map.entries@.len(),
    ensures
        ({
            let members = rule_members(contents(map@));
            let read = rules_map(members, n);
            &&& members.len() == map.entries@.len()
            &&& read is Some
            &&& read->Some_0.dom() =~= entry_keys(map.entries@).take(n as int).to_set()
            &&& forall|k: int|
                0 <= k < n ==> read->Some_0[#[trigger] entry_keys(map.entries@)[k]] == contents(
                    map@,
                )[entry_keys(map.entries@)[k]]
        }),
    decreases n,
{
    let entries = map.entries@;
    let keys = entry_keys(entries);
    entries_facts(entries);
    keys_in_order(entries);
    assert(contents(map@).dom() =~= map@.dom());
    let members = rule_members(contents(map@));
    assert(members.len() == keys.len());
    if n > 0 {
        rules_read_back(map, (n - 1) as nat);
        keys_apart(keys, n);
        assert(members[n - 1] == (keys[n - 1], rule_json(contents(map@)[keys[n - 1]])));
    } else {
        assert(keys.take(0).to_set() =~= Set::empty());
    }
}

/// Every field of a written entry is found under its name.
proof fn written_fields(e: EntryModel)
    ensures
        ({
            let v = entry_json(e);
            &&& field(v, 0, "id"@) == Some(JsonModel::Text(e.id))
            &&& field(v, 1, "component"@) == Some(JsonModel::Text(e.component))
            &&& field(v, 2, "config"@) == Some(e.config)
            &&& field(v, 3, "disabled"@) == Some(JsonModel::Bool(e.disabled))
            &&& field(v, 4, "group"@) == Some(JsonModel::Bool(e.group))
            &&& field(v, 5, "intercept"@) == Some(JsonModel::Object(map_members(e.intercept)))
            &&& field(v, 6, "isolate"@) == Some(JsonModel::Object(rule_members(e.isolate)))
            &&& field(v, 7, "children"@) == Some(JsonModel::Array(entries_json(e.children)))
        }),
{
    reveal_strlit("children");
    reveal_strlit("component");
    reveal_strlit("config");
    reveal_strlit("disabled");
    reveal_strlit("group");
    reveal_strlit("id");
    reveal_strlit("intercept");
    reveal_strlit("isolate");
    let members = entry_json(e)->Object_0;
    assert(members[0].1->Array_0 =~= entries_json(e.children));
    assert("children"@.len() == 8 && "component"@.len() == 9 && "config"@.len() == 6);
    assert("disabled"@.len() == 8 && "group"@.len() == 5 && "id"@.len() == 2);
    assert("intercept"@.len() == 9 && "isolate"@.len() == 7);
    assert("children"@[0] != "disabled"@[0]);
    assert("component"@[0] != "intercept"@[0]);
    key_position_is(members, "children"@, 0);
    key_position_is(members, "component"@, 1);
    key_position_is(members, "config"@, 2);
    key_position_is(members, "disabled"@, 3);
    key_position_is(members, "group"@, 4);
    key_position_is(members, "id"@, 5);
    key_position_is(members, "intercept"@, 6);
    key_position_is(members, "isolate"@, 7);
}

proof fn entry_reads_back(e: EntrySpec)
    requires
        entry_wf(e),
    ensures
        entry_of(entry_json(e@)) == Ok::<EntryModel, Seq<char>>(e@),
    decreases e, 1nat, 0nat,
{
    let m = e@;
    written_fields(m);
    children_model(e);
    children_read_back(e, e.children@.len());
    assert(entries_json(m.children).len() == e.children@.len());
    assert(entry_models(e.children@).take(e.children@.len() as int) =~= m.children);
    let intercept_keys = entry_keys(e.intercept.entries@);
    entries_facts(e.intercept.entries@);
    map_reads_back(e.intercept, e.intercept.entries@.len());
    assert(intercept_keys.take(intercept_keys.len() as int) =~= intercept_keys);
    let members = map_members(m.intercept);
    assert(members_map(members, members.len()) =~= m.intercept) by {
        assert forall|k: Seq<char>| #[trigger] m.intercept.dom().contains(k) <==> members_map(
            members,
            members.len(),
        ).dom().contains(k) by {
            assert(e.intercept@.dom().contains(k) <==> intercept_keys.contains(k));
        }
        assert forall|k: Seq<char>| #[trigger] m.intercept.dom().contains(k) implies members_map(
            members,
            members.len(),
        )[k] == m.intercept[k] by {
            assert(intercept_keys.contains(k));
            let i = choose|i: int| 0 <= i < intercept_keys.len() && intercept_keys[i] == k;
            assert(intercept_keys[i] == k);
        }
    }
    let isolate_keys = entry_keys(e.isolate.entries@);
    entries_facts(e.isolate.entries@);
    rules_read_back(e.isolate, e.isolate.entries@.len());
    assert(isolate_keys.take(isolate_keys.len() as int) =~= isolate_keys);
    let rules = rule_members(m.isolate);
    let read = rules_map(rules, rules.len())->Some_0;
    assert(read =~= m.isolate) by {
        assert forall|k: Seq<char>| #[trigger] m.isolate.dom().contains(k) <==> read.dom().contains(
            k,
        ) by {
            assert(e.isolate@.dom().contains(k) <==> isolate_keys.contains(k));
        }
        assert forall|k: Seq<char>| #[trigger] m.isolate.dom().contains(k) implies read[k]
            == m.isolate[k] by {
            assert(isolate_keys.contains(k));
            let i = choose|i: int| 0 <= i < isolate_keys.len() && isolate_keys[i] == k;
            assert(isolate_keys[i] == k);
        }
    }
    assert(entry_fault(entry_json(m)) is None);
}

proof fn children_read_back(e: EntrySpec, n: nat)
    requires
        entry_wf(e),
        n <= e.children@.len(),
    ensures
        entries_of(entries_json(entry_models(e.children@)), n) == Ok::<Seq<EntryModel>, Seq<char>>(
            entry_models(e.children@).take(n as int),
        ),
    decreases e, 0nat, n,
{
    let models = entry_models(e.children@);
    let items = entries_json(models);
    assert(models.len() == e.children@.len() && items.len() == models.len());
    if n > 0 {
        children_read_back(e, (n - 1) as nat);
        assert(decreases_to!(e => e.children));
        assert(decreases_to!(e.children => e.children@[n - 1]));
        assert(entry_wf(e.children@[n - 1]));
        entry_reads_back(e.children@[n - 1]);
        assert(items[n - 1] == entry_json(models[n - 1]));
        assert(models[n - 1] == e.children@[n - 1]@);
        assert(models.take(n as int) =~= models.take(n - 1).push(models[n - 1]));
    } else {
        assert(models.take(0) =~= Seq::empty());
    }
}

proof fn list_reads_back(entries: Seq<EntrySpec>, n: nat)
    requires
        entries_wf(entries),
        n <= entries.len(),
    ensures
        entries_of(entries_json(entry_models(entries)), n) == Ok::<Seq<EntryModel>, Seq<char>>(
            entry_models(entries).take(n as int),
        ),
    decreases n,
{
    let models = entry_models(entries);
    let items = entries_json(models);
    assert(models.len() == entries.len() && items.len() == models.len());
    if n > 0 {
        list_reads_back(entries, (n - 1) as nat);
        entry_reads_back(entries[n - 1]);
        assert(items[n - 1] == entry_json(models[n - 1]));
        assert(models[n - 1] == entries[n - 1]@);
        assert(models.take(n as int) =~= models.take(n - 1).push(models[n - 1]));
    } else {
        assert(models.take(0) =~= Seq::empty());
    }
}

/// What is written back reads as the same entries.
pub proof fn written_entries_read_back(entries: Seq<EntrySpec>)
    requires
        entries_wf(entries),
    ensures
        document_entries(JsonModel::Array(entries_json(entry_models(entries)))) == Ok::<
            Seq<EntryModel>,
            Seq<char>,
        >(entry_models(entries)),
{
    list_reads_back(entries, entries.len());
    assert(entries_json(entry_models(entries)).len() == entries.len());
    assert(entry_models(entries).take(entries.len() as int) =~= entry_models(entries));
}

fn missing_entries() -> (r: LoaderError)
    ensures
        r@ == LoaderErrorModel::Include(
            "include root must be an entry array or contain `entries`"@,
        ),
{
    LoaderError::Include("include root must be an entry array or contain `entries`".to_owned())
}

/// Reads the entries of a parsed document.
pub fn decode_entries(v: &Value) -> (r: Result<Vec<EntrySpec>, LoaderError>)
    ensures
        match (r, document_entries(v@)) {
            (Ok(entries), Ok(expected)) => entries_wf(entries@) && entry_models(entries@)
                == expected,
            (Err(error), Err(expected)) => error@ == LoaderErrorModel::Include(expected),
            _ => false,
        },
{
    let items = match v {
        Value::Array(items) => {
            proof {
                array_model(*items);
            }
            items
        },
        Value::Object(_) => match get_field(v, 0, "entries") {
            Some(Value::Array(items)) => {
                proof {
                    array_model(*items);
                }
                items
            },
            Some(_) => {
                return Err(LoaderError::Include("`entries` must be an array".to_owned()));
            },
            None => {
                return Err(missing_entries());
            },
        },
        _ => {
            return Err(missing_entries());
        },
    };
    proof {
        assert(item_models(items@).len() == items@.len());
    }
    match entries_from_values(items) {
        Ok(entries) => Ok(entries),
        Err(message) => Err(LoaderError::Include(message)),
    }
}

// ---------------------------------------------------------------------------------------------
// Patches
// ---------------------------------------------------------------------------------------------

/// One change to a document's entries.
#[derive(Debug)]
pub struct Patch {
    pub target: Option<EntryId>,
    pub action: PatchAction,
}

#[derive(Debug)]
pub enum PatchAction {
    Merge(Value),
    Replace(EntrySpec),
    Remove,
    Insert { index: usize, entry: EntrySpec },
}

/// What a patch does.
pub enum ActionModel {
    Merge(JsonModel),
    Replace(EntryModel),
    Remove,
    Insert { index: nat, entry: EntryModel },
}

/// A change to a document's entries.
pub struct PatchModel {
    pub target: Option<Seq<char>>,
    pub action: ActionModel,
}

impl View for Patch {
    type V = PatchModel;

    open spec fn view(&self) -> PatchModel {
        PatchModel {
            target: match self.target {
                Some(id) => Some(id@),
                None => None,
            },
            action: match self.action {
                PatchAction::Merge(value) => ActionModel::Merge(value@),
                PatchAction::Replace(entry) => ActionModel::Replace(entry@),
                PatchAction::Remove => ActionModel::Remove,
                PatchAction::Insert { index, entry } => ActionModel::Insert {
                    index: index as nat,
                    entry: entry@,
                },
            },
        }
    }
}

/// The entries a patch brings in are sound.
pub open spec fn patch_wf(patch: Patch) -> bool {
    match patch.action {
        PatchAction::Replace(entry) => entry_wf(entry),
        PatchAction::Insert { entry, .. } => entry_wf(entry),
        _ => true,
    }
}

/// An identifier that does not match the target of a patch.
pub open spec fn mismatch(kind: Seq<char>, id: Seq<char>, target: Seq<char>) -> LoaderErrorModel {
    LoaderErrorModel::Include(
        kind + " id `"@ + id + "` does not match target `"@ + target + "`"@,
    )
}

/// The entry a merge patch leads to: the merged value has to describe an entry with the same
/// identifier.
pub open spec fn merged_entry(e: EntryModel, patch: JsonModel, target: Seq<char>) -> Result<
    EntryModel,
    LoaderErrorModel,
> {
    match entry_of(merged(entry_json(e), patch)) {
        Err(message) => Err(LoaderErrorModel::Include(message)),
        Ok(next) => if next.id != target {
            Err(mismatch("merged"@, next.id, target))
        } else {
            Ok(next)
        },
    }
}

/// Entries after one patch.
pub open spec fn patched_once(entries: Seq<EntryModel>, patch: PatchModel) -> Result<
    Seq<EntryModel>,
    LoaderErrorModel,
> {
    match (patch.action, patch.target) {
        (ActionModel::Insert { index, entry }, target) => inserted(entries, target, index, entry),
        (ActionModel::Remove, None) => Err(
            LoaderErrorModel::Include("remove patch requires target"@),
        ),
        (ActionModel::Remove, Some(target)) => without(entries, target),
        (ActionModel::Replace(_), None) => Err(
            LoaderErrorModel::Include("replace patch requires target"@),
        ),
        (ActionModel::Replace(entry), Some(target)) => if entry.id != target {
            Err(mismatch("replacement"@, entry.id, target))
        } else {
            changed(entries, target, EditModel::Replace(entry))
        },
        (ActionModel::Merge(_), None) => Err(
            LoaderErrorModel::Include("merge patch requires target"@),
        ),
        (ActionModel::Merge(value), Some(target)) => match find_in(entries, target) {
            None => Err(LoaderErrorModel::MissingEntry(target)),
            Some(e) => match merged_entry(e, value, target) {
                Err(error) => Err(error),
                Ok(next) => changed(entries, target, EditModel::Replace(next)),
            },
        },
    }
}

/// Entries after the first `n` patches; the first one refused decides.
pub open spec fn patched(entries: Seq<EntryModel>, patches: Seq<PatchModel>, n: nat) -> Result<
    Seq<EntryModel>,
    LoaderErrorModel,
>
    decreases n,
{
    if n == 0 || n > patches.len() {
        Ok(entries)
    } else {
        match patched(entries, patches, (n - 1) as nat) {
            Err(error) => Err(error),
            Ok(before) => patched_once(before, patches[n - 1]),
        }
    }
}

fn mismatch_error(kind: &str, id: &EntryId, target: &EntryId) -> (r: LoaderError)
    ensures
        r@ == mismatch(kind@, id@, target@),
{
    let mut message = kind.to_owned();
    message.append(" id `");
    message.append(id.as_str());
    message.append("` does not match target `");
    message.append(target.as_str());
    message.append("`");
    LoaderError::Include(message)
}

fn apply_merge(entries: Vec<EntrySpec>, target: &EntryId, value: &Value) -> (r: Result<
    Vec<EntrySpec>,
    LoaderError,
>)
    requires
        entries_wf(entries@),
    ensures
        roots_match(
            r,
            patched_once(
                entry_models(entries@),
                (PatchModel { target: Some(target@), action: ActionModel::Merge(value@) }),
            ),
        ),
{
    let mut base = match find_entry(&entries, target) {
        None => {
            return Err(LoaderError::MissingEntry(target.duplicate()));
        },
        Some(entry) => entry_to_value(entry),
    };
    deep_merge(&mut base, value);
    let next = match entry_from_value(&base) {
        Err(message) => {
            return Err(LoaderError::Include(message));
        },
        Ok(next) => next,
    };
    if !next.id.same(target) {
        return Err(mismatch_error("merged", &next.id, target));
    }
    change_entry(entries, target, EntryEdit::Replace(next))
}

fn apply_patch(entries: Vec<EntrySpec>, patch: &Patch) -> (r: Result<Vec<EntrySpec>, LoaderError>)
    requires
        entries_wf(entries@),
        patch_wf(*patch),
    ensures
        roots_match(r, patched_once(entry_models(entries@), patch@)),
{
    match &patch.action {
        PatchAction::Insert { index, entry } => insert_entry(
            entries,
            patch.target.as_ref(),
            *index,
            entry.duplicate(),
        ),
        PatchAction::Remove => match &patch.target {
            None => Err(LoaderError::Include("remove patch requires target".to_owned())),
            Some(target) => drop_entry(entries, target),
        },
        PatchAction::Replace(replacement) => match &patch.target {
            None => Err(LoaderError::Include("replace patch requires target".to_owned())),
            Some(target) => {
                if !replacement.id.same(target) {
                    return Err(mismatch_error("replacement", &replacement.id, target));
                }
                change_entry(entries, target, EntryEdit::Replace(replacement.duplicate()))
            },
        },
        PatchAction::Merge(value) => match &patch.target {
            None => Err(LoaderError::Include("merge patch requires target".to_owned())),
            Some(target) => apply_merge(entries, target, value),
        },
    }
}

/// Applies patches in order.
pub fn apply_patches(entries: Vec<EntrySpec>, patches: &Vec<Patch>) -> (r: Result<
    Vec<EntrySpec>,
    LoaderError,
>)
    requires
        entries_wf(entries@),
        forall|i: int| 0 <= i < patches@.len() ==> patch_wf(#[trigger] patches@[i]),
    ensures
        roots_match(r, patched(entry_models(entries@), views(patches@), patches@.len())),
{
    let ghost start = entry_models(entries@);
    let ghost models = views(patches@);
    let mut current = entries;
    let mut i: usize = 0;
    while i < patches.len()
        invariant
            forall|k: int| 0 <= k < patches@.len() ==> patch_wf(#[trigger] patches@[k]),
            models == views(patches@),
            start == entry_models(entries@),
            i <= patches.len(),
            entries_wf(current@),
            patched(start, models, i as nat) == Ok::<Seq<EntryModel>, LoaderErrorModel>(
                entry_models(current@),
            ),
        decreases patches.len() - i,
    {
        proof {
            assert(models[i as int] == patches@[i as int]@);
        }
        match apply_patch(current, &patches[i]) {
            Err(error) => {
                proof {
                    refused_patch_decides(start, models, (i + 1) as nat, models.len());
                }
                return Err(error);
            },
            Ok(next) => {
                current = next;
            },
        }
        i = i + 1;
    }
    Ok(current)
}

proof fn refused_patch_decides(
    entries: Seq<EntryModel>,
    patches: Seq<PatchModel>,
    n: nat,
    m: nat,
)
    requires
        n <= m <= patches.len(),
        patched(entries, patches, n) is Err,
    ensures
        patched(entries, patches, m) == patched(entries, patches, n),
    decreases m - n,
{
    if n < m {
        refused_patch_decides(entries, patches, n, (m - 1) as nat);
    }
}

/// A document of entries that may be written back.
#[derive(Debug)]
pub struct IncludeDocument {
    pub path: String,
    pub format: IncludeFormat,
    pub readonly: bool,
    pub entries: Vec<EntrySpec>,
}

/// What a document is read from: JSON text, or a parsed YAML value.
#[derive(Debug)]
pub enum IncludeSource {
    Json(String),
    Yaml(TaggedNode),
}

/// The entries of a document that came to a value, patched.
pub open spec fn document_content(
    value: Result<JsonModel, LoaderErrorModel>,
    patches: Seq<PatchModel>,
) -> Result<Seq<EntryModel>, LoaderErrorModel> {
    match value {
        Err(error) => Err(error),
        Ok(value) => match document_entries(value) {
            Err(message) => Err(LoaderErrorModel::Include(message)),
            Ok(entries) => patched(entries, patches, patches.len()),
        },
    }
}

/// The value of a JSON document, or why it has none.
pub open spec fn json_document(source: Seq<char>) -> Result<JsonModel, LoaderErrorModel> {
    match parsed_json(source) {
        Ok(value) => Ok(value),
        Err(message) => Err(LoaderErrorModel::Include(message)),
    }
}

/// A document with these entries, or their error, was returned.
pub open spec fn is_document(
    r: Result<IncludeDocument, LoaderError>,
    path: Seq<char>,
    format: IncludeFormat,
    readonly: bool,
    content: Result<Seq<EntryModel>, LoaderErrorModel>,
) -> bool {
    match (r, content) {
        (Ok(document), Ok(entries)) => {
            &&& document.path@ == path
            &&& document.format == format
            &&& document.readonly == readonly
            &&& entries_wf(document.entries@)
            &&& entry_models(document.entries@) == entries
        },
        (Err(error), Err(expected)) => error@ == expected,
        _ => false,
    }
}

/// What a document read from YAML may come to.
pub open spec fn is_yaml_document(
    r: Result<IncludeDocument, LoaderError>,
    path: Seq<char>,
    readonly: bool,
    root: TaggedNode,
    patches: Seq<PatchModel>,
    context: JsonModel,
) -> bool {
    &&& exists|value: Result<JsonModel, LoaderErrorModel>| #[trigger]
        may_become(root, context, value) && is_document(
            r,
            path,
            IncludeFormat::Yaml,
            readonly,
            document_content(value, patches),
        )
    &&& expr_count(root) == 0 ==> is_document(
        r,
        path,
        IncludeFormat::Yaml,
        readonly,
        document_content(yaml_json(root, Seq::empty(), 0), patches),
    )
}

impl IncludeDocument {
    /// Reads and patches a JSON document.
    pub fn from_json(path: String, readonly: bool, source: &str, patches: &Vec<Patch>) -> (r:
        Result<IncludeDocument, LoaderError>)
        requires
            forall|i: int| 0 <= i < patches@.len() ==> patch_wf(#[trigger] patches@[i]),
        ensures
            is_document(
                r,
                path@,
                IncludeFormat::Json,
                readonly,
                document_content(json_document(source@), views(patches@)),
            ),
    {
        match parse_json(source) {
            Err(message) => Err(LoaderError::Include(message)),
            Ok(value) => IncludeDocument::from_value(
                path,
                IncludeFormat::Json,
                readonly,
                &value,
                patches,
            ),
        }
    }

    /// Evaluates and patches a parsed YAML document.
    pub fn from_yaml(
        path: String,
        readonly: bool,
        root: &TaggedNode,
        patches: &Vec<Patch>,
        context: &Value,
    ) -> (r: Result<IncludeDocument, LoaderError>)
        requires
            forall|i: int| 0 <= i < patches@.len() ==> patch_wf(#[trigger] patches@[i]),
        ensures
            is_yaml_document(r, path@, readonly, *root, views(patches@), context@),
    {
        let found = yaml_to_json(root, &ExprEvaluator, context);
        let ghost content = value_model(found);
        match found {
            Err(error) => {
                proof {
                    assert(may_become(*root, context@, content));
                }
                Err(error)
            },
            Ok(value) => {
                let r = IncludeDocument::from_value(
                    path,
                    IncludeFormat::Yaml,
                    readonly,
                    &value,
                    patches,
                );
                proof {
                    assert(may_become(*root, context@, content));
                }
                r
            },
        }
    }

    /// Reads, evaluates and patches a document.
    pub fn from_source(
        path: String,
        readonly: bool,
        source: &IncludeSource,
        patches: &Vec<Patch>,
        context: &Value,
    ) -> (r: Result<IncludeDocument, LoaderError>)
        requires
            forall|i: int| 0 <= i < patches@.len() ==> patch_wf(#[trigger] patches@[i]),
        ensures
            match source {
                IncludeSource::Json(text) => is_document(
                    r,
                    path@,
                    IncludeFormat::Json,
                    readonly,
                    document_content(json_document(text@), views(patches@)),
                ),
                IncludeSource::Yaml(root) => is_yaml_document(
                    r,
                    path@,
                    readonly,
                    *root,
                    views(patches@),
                    context@,
                ),
            },
    {
        match source {
            IncludeSource::Json(text) => IncludeDocument::from_json(
                path,
                readonly,
                text.as_str(),
                patches,
            ),
            IncludeSource::Yaml(root) => IncludeDocument::from_yaml(
                path,
                readonly,
                root,
                patches,
                context,
            ),
        }
    }

    /// Reads the entries of a parsed document and patches them.
    pub fn from_value(
        path: String,
        format: IncludeFormat,
        readonly: bool,
        value: &Value,
        patches: &Vec<Patch>,
    ) -> (r: Result<IncludeDocument, LoaderError>)
        requires
            forall|i: int| 0 <= i < patches@.len() ==> patch_wf(#[trigger] patches@[i]),
        ensures
            is_document(
                r,
                path@,
                format,
                readonly,
                document_content(Ok(value@), views(patches@)),
            ),
    {
        let entries = match decode_entries(value) {
            Err(error) => {
                return Err(error);
            },
            Ok(entries) => entries,
        };
        match apply_patches(entries, patches) {
            Err(error) => Err(error),
            Ok(entries) => Ok(IncludeDocument { path, format, readonly, entries }),
        }
    }

    pub fn entries(&self) -> (r: &Vec<EntrySpec>)
        ensures
            *r == self.entries,
    {
        &self.entries
    }

    pub fn readonly(&self) -> (r: bool)
        ensures
            r == self.readonly,
    {
        self.readonly
    }

    /// The value to write back. A read-only document is never written.
    pub fn write_back(&self) -> (r: Result<Value, LoaderError>)
        requires
            entries_wf(self.entries@),
        ensures
            match r {
                Ok(value) => !self.readonly && value@ == JsonModel::Array(
                    entries_json(entry_models(self.entries@)),
                ),
                Err(error) => self.readonly && error@ == LoaderErrorModel::Include(
                    "include "@ + self.path@ + " is read-only"@,
                ),
            },
    {
        if self.readonly {
            let mut message = "include ".to_owned();
            message.append(self.path.as_str());
            message.append(" is read-only");
            return Err(LoaderError::Include(message));
        }
        let values = entries_to_values(&self.entries);
        proof {
            array_model(values);
        }
        Ok(Value::Array(values))
    }
}

/// A file is read-only when nobody may write it: none of its mode's three write bits is set.
pub fn is_readonly(mode: u32) -> (r: bool)
    ensures
        r == (mode & 0o200 == 0 && mode & 0o020 == 0 && mode & 0o002 == 0),
{
    mode & 0o200 == 0 && mode & 0o020 == 0 && mode & 0o002 == 0
}

/// The name of the file that a document is written to before it takes the document's place.
/// `file_name` is the document's own, if that is text.
pub fn temporary_name(file_name: Option<&str>, process: u32, stamp: &str) -> (r: String)
    ensures
        r@ == "."@ + match file_name {
            Some(name) => name@,
            None => "include"@,
        } + "."@ + decimal(process as nat) + "."@ + stamp@ + ".tmp"@,
{
    let mut out = ".".to_owned();
    match file_name {
        Some(name) => out.append(name),
        None => out.append("include"),
    }
    out.append(".");
    push_decimal(&mut out, process as u64);
    out.append(".");
    out.append(stamp);
    out.append(".tmp");
    out
}

} // verus!
