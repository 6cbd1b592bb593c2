//! JSON values: configuration, intercept layers and schemas.
use crate::text::{characters, hex_byte, push_hex, text_before, text_less};
use vstd::prelude::*;

verus! {

/// The content of a JSON value. An object lists its members in key order.
pub enum JsonModel {
    Null,
    Bool(bool),
    Number(Seq<char>),
    Text(Seq<char>),
    Array(Seq<JsonModel>),
    Object(Seq<(Seq<char>, JsonModel)>),
}

/// A JSON value. A number is kept as its shortest JSON spelling.
#[derive(Debug, PartialEq, Eq)]
pub enum Value {
    Null,
    Bool(bool),
    Number(String),
    Text(String),
    Array(Vec<Value>),
    Object(Vec<Member>),
}

/// One member of an object.
#[derive(Debug, PartialEq, Eq)]
pub struct Member {
    pub key: String,
    pub value: Value,
}

/// The content of a value, nested values included.
pub open spec fn json_model(v: Value) -> JsonModel
    decreases v,
{
    match v {
        Value::Null => JsonModel::Null,
        Value::Bool(b) => JsonModel::Bool(b),
        Value::Number(n) => JsonModel::Number(n@),
        Value::Text(s) => JsonModel::Text(s@),
        Value::Array(items) => JsonModel::Array(
            Seq::new(
                items@.len(),
                |i: int|
                    if 0 <= i < items@.len() {
                        json_model(items@[i])
                    } else {
                        JsonModel::Null
                    },
            ),
        ),
        Value::Object(members) => JsonModel::Object(
            Seq::new(
                members@.len(),
                |i: int|
                    if 0 <= i < members@.len() {
                        (members@[i].key@, json_model(members@[i].value))
                    } else {
                        (Seq::empty(), JsonModel::Null)
                    },
            ),
        ),
    }
}

impl View for Value {
    type V = JsonModel;

    open spec fn view(&self) -> JsonModel {
        json_model(*self)
    }
}

impl View for Member {
    type V = (Seq<char>, JsonModel);

    open spec fn view(&self) -> (Seq<char>, JsonModel) {
        (self.key@, self.value@)
    }
}

/// The contents of a list of values.
pub open spec fn item_models(items: Seq<Value>) -> Seq<JsonModel> {
    Seq::new(items.len(), |i: int| items[i]@)
}

/// The contents of a list of members.
pub open spec fn member_models(members: Seq<Member>) -> Seq<(Seq<char>, JsonModel)> {
    Seq::new(members.len(), |i: int| members[i]@)
}

/// An array's content is the contents of its items.
pub proof fn array_model(items: Vec<Value>)
    ensures
        Value::Array(items)@ == JsonModel::Array(item_models(items@)),
{
    let inner = Value::Array(items)@->Array_0;
    assert(inner =~= item_models(items@));
}

/// An object's content is the contents of its members.
pub proof fn object_model(members: Vec<Member>)
    ensures
        Value::Object(members)@ == JsonModel::Object(member_models(members@)),
{
    let inner = Value::Object(members)@->Object_0;
    assert(inner =~= member_models(members@));
}

/// The position of a key among members, or their number.
pub open spec fn key_position(members: Seq<(Seq<char>, JsonModel)>, key: Seq<char>) -> int
    decreases members.len(),
{
    if members.len() == 0 {
        0
    } else if members[0].0 == key {
        0
    } else {
        1 + key_position(members.drop_first(), key)
    }
}

/// The member named `key`.
pub open spec fn member(members: Seq<(Seq<char>, JsonModel)>, key: Seq<char>) -> Option<JsonModel> {
    let i = key_position(members, key);
    if 0 <= i < members.len() {
        Some(members[i].1)
    } else {
        None
    }
}

/// The number of leading members whose key sorts before `key`.
pub open spec fn sorted_position(members: Seq<(Seq<char>, JsonModel)>, key: Seq<char>) -> int
    decreases members.len(),
{
    if members.len() == 0 {
        0
    } else if text_less(members[0].0, key) {
        1 + sorted_position(members.drop_first(), key)
    } else {
        0
    }
}

/// Sets the member named `key`, keeping key order when it is new.
pub open spec fn with_member(
    members: Seq<(Seq<char>, JsonModel)>,
    key: Seq<char>,
    value: JsonModel,
) -> Seq<(Seq<char>, JsonModel)> {
    let i = key_position(members, key);
    if 0 <= i < members.len() {
        members.update(i, (key, value))
    } else {
        members.insert(sorted_position(members, key), (key, value))
    }
}

pub proof fn key_position_facts(members: Seq<(Seq<char>, JsonModel)>, key: Seq<char>)
    ensures
        0 <= key_position(members, key) <= members.len(),
        key_position(members, key) < members.len() ==> members[key_position(members, key)].0 == key,
        forall|j: int| 0 <= j < key_position(members, key) ==> (#[trigger] members[j]).0 != key,
    decreases members.len(),
{
    if members.len() > 0 && members[0].0 != key {
        key_position_facts(members.drop_first(), key);
        let rest = members.drop_first();
        assert forall|j: int| 0 <= j < key_position(members, key) implies (
        #[trigger] members[j]).0 != key by {
            if j > 0 {
                assert(rest[j - 1] == members[j]);
            }
        }
    }
}

pub proof fn key_position_is(members: Seq<(Seq<char>, JsonModel)>, key: Seq<char>, i: int)
    requires
        0 <= i <= members.len(),
        i < members.len() ==> members[i].0 == key,
        forall|j: int| 0 <= j < i ==> (#[trigger] members[j]).0 != key,
    ensures
        key_position(members, key) == i,
    decreases members.len(),
{
    if members.len() > 0 && i > 0 {
        assert(members[0].0 != key);
        let rest = members.drop_first();
        assert forall|j: int| 0 <= j < i - 1 implies (#[trigger] rest[j]).0 != key by {
            assert(members[j + 1].0 != key);
        }
        key_position_is(rest, key, i - 1);
    }
}

pub proof fn sorted_position_is(members: Seq<(Seq<char>, JsonModel)>, key: Seq<char>, i: int)
    requires
        0 <= i <= members.len(),
        i < members.len() ==> !text_less(members[i].0, key),
        forall|j: int| 0 <= j < i ==> text_less((#[trigger] members[j]).0, key),
    ensures
        sorted_position(members, key) == i,
    decreases members.len(),
{
    if members.len() > 0 && i > 0 {
        assert(text_less(members[0].0, key));
        let rest = members.drop_first();
        assert forall|j: int| 0 <= j < i - 1 implies text_less((#[trigger] rest[j]).0, key) by {
            assert(text_less(members[j + 1].0, key));
        }
        sorted_position_is(rest, key, i - 1);
    }
}

/// Objects merge member by member, absent members counting as null; anything else is replaced.
pub open spec fn merged(base: JsonModel, patch: JsonModel) -> JsonModel
    decreases patch, 0nat,
{
    match (base, patch) {
        (JsonModel::Object(base), JsonModel::Object(changes)) => JsonModel::Object(
            merged_members(base, changes, changes.len()),
        ),
        (_, patch) => patch,
    }
}

/// The first `n` changes of a patch applied in order.
pub open spec fn merged_members(
    base: Seq<(Seq<char>, JsonModel)>,
    changes: Seq<(Seq<char>, JsonModel)>,
    n: nat,
) -> Seq<(Seq<char>, JsonModel)>
    decreases changes, n,
{
    if n == 0 || n > changes.len() {
        base
    } else {
        let before = merged_members(base, changes, (n - 1) as nat);
        let (key, change) = changes[n - 1];
        let current = match member(before, key) {
            Some(value) => value,
            None => JsonModel::Null,
        };
        with_member(before, key, merged(current, change))
    }
}

/// Copies a list of values.
pub fn duplicate_items(items: &Vec<Value>) -> (r: Vec<Value>)
    ensures
        item_models(r@) == item_models(items@),
    decreases items,
{
    let mut out: Vec<Value> = Vec::new();
    let mut i: usize = 0;
    while i < items.len()
        invariant
            i <= items.len(),
            out.len() == i,
            forall|j: int| 0 <= j < i ==> (#[trigger] out@[j])@ == items@[j]@,
        decreases items.len() - i,
    {
        out.push(items[i].duplicate());
        i = i + 1;
    }
    proof {
        assert(item_models(out@) =~= item_models(items@));
    }
    out
}

/// Copies a list of members.
pub fn duplicate_members(members: &Vec<Member>) -> (r: Vec<Member>)
    ensures
        member_models(r@) == member_models(members@),
    decreases members,
{
    let mut out: Vec<Member> = Vec::new();
    let mut i: usize = 0;
    while i < members.len()
        invariant
            i <= members.len(),
            out.len() == i,
            forall|j: int| 0 <= j < i ==> (#[trigger] out@[j])@ == members@[j]@,
        decreases members.len() - i,
    {
        out.push(
            Member { key: members[i].key.clone(), value: members[i].value.duplicate() },
        );
        i = i + 1;
    }
    proof {
        assert(member_models(out@) =~= member_models(members@));
    }
    out
}

/// Compares two lists of members.
pub fn same_members(a: &Vec<Member>, b: &Vec<Member>) -> (r: bool)
    ensures
        r == (member_models(a@) == member_models(b@)),
    decreases a,
{
    if a.len() != b.len() {
        proof {
            assert(member_models(a@).len() != member_models(b@).len());
        }
        return false;
    }
    let mut i: usize = 0;
    while i < a.len()
        invariant
            i <= a.len(),
            a.len() == b.len(),
            forall|j: int| 0 <= j < i ==> (#[trigger] a@[j])@ == b@[j]@,
        decreases a.len() - i,
    {
        if a[i].key != b[i].key || !a[i].value.same(&b[i].value) {
            proof {
                assert(member_models(a@)[i as int] != member_models(b@)[i as int]);
            }
            return false;
        }
        i = i + 1;
    }
    proof {
        assert(member_models(a@) =~= member_models(b@));
    }
    true
}

/// Finds the position of a key.
pub fn find_member(members: &Vec<Member>, key: &String) -> (r: usize)
    ensures
        r == key_position(member_models(members@), key@),
        r <= members.len(),
{
    let ghost models = member_models(members@);
    let mut i: usize = 0;
    while i < members.len()
        invariant
            models == member_models(members@),
            i <= members.len(),
            forall|j: int| 0 <= j < i ==> (#[trigger] models[j]).0 != key@,
        decreases members.len() - i,
    {
        if members[i].key == *key {
            proof {
                assert(models[i as int].0 == key@);
                key_position_is(models, key@, i as int);
            }
            return i;
        }
        proof {
            assert(models[i as int].0 != key@);
        }
        i = i + 1;
    }
    proof {
        key_position_is(models, key@, i as int);
    }
    i
}

/// Finds where a new key belongs.
fn find_sorted(members: &Vec<Member>, key: &String) -> (r: usize)
    ensures
        r == sorted_position(member_models(members@), key@),
        r <= members.len(),
{
    let ghost models = member_models(members@);
    let mut i: usize = 0;
    while i < members.len() && text_before(members[i].key.as_str(), key.as_str())
        invariant
            models == member_models(members@),
            i <= members.len(),
            forall|j: int| 0 <= j < i ==> text_less((#[trigger] models[j]).0, key@),
        decreases members.len() - i,
    {
        proof {
            assert(models[i as int].0 == members@[i as int].key@);
        }
        i = i + 1;
    }
    proof {
        if i < members.len() {
            assert(models[i as int].0 == members@[i as int].key@);
        }
        sorted_position_is(models, key@, i as int);
    }
    i
}

/// Sets one member.
pub fn set_member(members: &mut Vec<Member>, key: String, value: Value)
    ensures
        member_models(final(members)@) == with_member(member_models(old(members)@), key@, value@),
{
    let i = find_member(members, &key);
    let ghost before = member_models(members@);
    let ghost new_member = (key@, value@);
    if i < members.len() {
        members[i] = Member { key, value };
        proof {
            assert(member_models(members@) =~= before.update(i as int, new_member));
        }
    } else {
        let at = find_sorted(members, &key);
        members.insert(at, Member { key, value });
        proof {
            assert(member_models(members@) =~= before.insert(at as int, new_member));
        }
    }
}

/// Applies a merge patch in place.
pub fn deep_merge(base: &mut Value, patch: &Value)
    ensures
        final(base)@ == merged(old(base)@, patch@),
    decreases patch,
{
    match patch {
        Value::Object(changes) => {
            let mut taken = Value::Null;
            std::mem::swap(base, &mut taken);
            match taken {
                Value::Object(members) => {
                    let mut members = members;
                    let ghost start = members;
                    merge_members(&mut members, changes);
                    proof {
                        object_model(start);
                        object_model(members);
                        object_model(*changes);
                        assert(member_models(changes@).len() == changes@.len());
                    }
                    *base = Value::Object(members);
                },
                _ => {
                    *base = patch.duplicate();
                },
            }
        },
        _ => {
            *base = patch.duplicate();
        },
    }
}

fn merge_members(members: &mut Vec<Member>, changes: &Vec<Member>)
    ensures
        member_models(final(members)@) == merged_members(
            member_models(old(members)@),
            member_models(changes@),
            changes@.len(),
        ),
    decreases changes,
{
    let ghost base = member_models(members@);
    let ghost patch = member_models(changes@);
    let mut i: usize = 0;
    while i < changes.len()
        invariant
            i <= changes.len(),
            patch == member_models(changes@),
            member_models(members@) == merged_members(base, patch, i as nat),
        decreases changes.len() - i,
    {
        let key = &changes[i].key;
        let ghost before = member_models(members@);
        proof {
            assert(patch[i as int] == (changes@[i as int].key@, changes@[i as int].value@));
            assert(patch.len() == changes.len());
        }
        let at = find_member(members, key);
        let mut current = if at < members.len() {
            proof {
                assert(before[at as int].1 == members@[at as int].value@);
            }
            members[at].value.duplicate()
        } else {
            Value::Null
        };
        deep_merge(&mut current, &changes[i].value);
        set_member(members, key.clone(), current);
        i = i + 1;
    }
}

impl Value {
    pub fn duplicate(&self) -> (r: Value)
        ensures
            r@ == self@,
        decreases self,
    {
        match self {
            Value::Null => Value::Null,
            Value::Bool(b) => Value::Bool(*b),
            Value::Number(n) => Value::Number(n.clone()),
            Value::Text(s) => Value::Text(s.clone()),
            Value::Array(items) => {
                let copies = duplicate_items(items);
                proof {
                    array_model(*items);
                    array_model(copies);
                }
                Value::Array(copies)
            },
            Value::Object(members) => {
                let copies = duplicate_members(members);
                proof {
                    object_model(*members);
                    object_model(copies);
                }
                Value::Object(copies)
            },
        }
    }

    pub fn same(&self, other: &Value) -> (r: bool)
        ensures
            r == (self@ == other@),
        decreases self,
    {
        match (self, other) {
            (Value::Null, Value::Null) => true,
            (Value::Bool(a), Value::Bool(b)) => *a == *b,
            (Value::Number(a), Value::Number(b)) => *a == *b,
            (Value::Text(a), Value::Text(b)) => *a == *b,
            (Value::Array(a), Value::Array(b)) => {
                proof {
                    array_model(*a);
                    array_model(*b);
                }
                same_items(a, b)
            },
            (Value::Object(a), Value::Object(b)) => {
                proof {
                    object_model(*a);
                    object_model(*b);
                }
                same_members(a, b)
            },
            _ => false,
        }
    }

    /// The member named `key` of an object.
    pub fn get(&self, key: &String) -> (r: Option<&Value>)
        ensures
            match r {
                Some(value) => self@ is Object && member(self@->Object_0, key@) == Some(value@),
                None => self@ is Object ==> member(self@->Object_0, key@) is None,
            },
    {
        match self {
            Value::Object(members) => {
                proof {
                    object_model(*members);
                }
                let i = find_member(members, key);
                if i < members.len() {
                    proof {
                        assert(member_models(members@)[i as int].1 == members@[i as int].value@);
                    }
                    Some(&members[i].value)
                } else {
                    proof {
                        assert(member_models(members@).len() == members.len());
                    }
                    None
                }
            },
            _ => None,
        }
    }

    /// The value as compact JSON text.
    pub fn to_json(&self) -> (r: String)
        ensures
            r@ == json_text(self@),
    {
        let mut out = String::new();
        push_json(&mut out, self);
        proof {
            assert(out@ =~= json_text(self@));
        }
        out
    }
}

/// Compares two lists of values.
pub fn same_items(a: &Vec<Value>, b: &Vec<Value>) -> (r: bool)
    ensures
        r == (item_models(a@) == item_models(b@)),
    decreases a,
{
    if a.len() != b.len() {
        proof {
            assert(item_models(a@).len() != item_models(b@).len());
        }
        return false;
    }
    let mut i: usize = 0;
    while i < a.len()
        invariant
            i <= a.len(),
            a.len() == b.len(),
            forall|j: int| 0 <= j < i ==> (#[trigger] a@[j])@ == b@[j]@,
        decreases a.len() - i,
    {
        if !a[i].same(&b[i]) {
            proof {
                assert(item_models(a@)[i as int] != item_models(b@)[i as int]);
            }
            return false;
        }
        i = i + 1;
    }
    proof {
        assert(item_models(a@) =~= item_models(b@));
    }
    true
}

/// A character inside a JSON string.
pub open spec fn escaped(c: char) -> Seq<char> {
    if c == '"' {
        seq!['\\', '"']
    } else if c == '\\' {
        seq!['\\', '\\']
    } else if c == '\n' {
        seq!['\\', 'n']
    } else if c == '\r' {
        seq!['\\', 'r']
    } else if c == '\t' {
        seq!['\\', 't']
    } else if c == '\u{8}' {
        seq!['\\', 'b']
    } else if c == '\u{c}' {
        seq!['\\', 'f']
    } else if (c as u32) < 0x20 {
        seq!['\\', 'u', '0', '0'] + hex_byte(c as u8)
    } else {
        seq![c]
    }
}

/// The characters of a JSON string, escaped.
pub open spec fn escaped_all(s: Seq<char>) -> Seq<char>
    decreases s.len(),
{
    if s.len() == 0 {
        Seq::empty()
    } else {
        escaped_all(s.drop_last()) + escaped(s.last())
    }
}

/// A quoted JSON string.
pub open spec fn quoted(s: Seq<char>) -> Seq<char> {
    seq!['"'] + escaped_all(s) + seq!['"']
}

/// A value as compact JSON text.
pub open spec fn json_text(v: JsonModel) -> Seq<char>
    decreases v, 0nat,
{
    match v {
        JsonModel::Null => "null"@,
        JsonModel::Bool(b) => if b {
            "true"@
        } else {
            "false"@
        },
        JsonModel::Number(n) => n,
        JsonModel::Text(s) => quoted(s),
        JsonModel::Array(items) => "["@ + items_text(items, items.len()) + "]"@,
        JsonModel::Object(members) => "{"@ + members_text(members, members.len()) + "}"@,
    }
}

/// The first `n` items, separated by commas.
pub open spec fn items_text(items: Seq<JsonModel>, n: nat) -> Seq<char>
    decreases items, n,
{
    if n == 0 || n > items.len() {
        Seq::empty()
    } else {
        items_text(items, (n - 1) as nat) + (if n > 1 {
            ","@
        } else {
            Seq::empty()
        }) + json_text(items[n - 1])
    }
}

/// The first `n` members, separated by commas.
pub open spec fn members_text(members: Seq<(Seq<char>, JsonModel)>, n: nat) -> Seq<char>
    decreases members, n,
{
    if n == 0 || n > members.len() {
        Seq::empty()
    } else {
        members_text(members, (n - 1) as nat) + (if n > 1 {
            ","@
        } else {
            Seq::empty()
        }) + quoted(members[n - 1].0) + ":"@ + json_text(members[n - 1].1)
    }
}

fn push_escaped(out: &mut String, c: char)
    ensures
        final(out)@ == old(out)@ + escaped(c),
{
    if c == '"' {
        out.push('\\');
        out.push('"');
    } else if c == '\\' {
        out.push('\\');
        out.push('\\');
    } else if c == '\n' {
        out.push('\\');
        out.push('n');
    } else if c == '\r' {
        out.push('\\');
        out.push('r');
    } else if c == '\t' {
        out.push('\\');
        out.push('t');
    } else if c == '\u{8}' {
        out.push('\\');
        out.push('b');
    } else if c == '\u{c}' {
        out.push('\\');
        out.push('f');
    } else if (c as u32) < 0x20 {
        out.push('\\');
        out.push('u');
        out.push('0');
        out.push('0');
        push_hex(out, c as u8);
    } else {
        out.push(c);
    }
    proof {
        assert(out@ =~= old(out)@ + escaped(c));
    }
}

pub fn push_quoted(out: &mut String, s: &String)
    ensures
        final(out)@ == old(out)@ + quoted(s@),
{
    out.push('"');
    let ghost start = out@;
    let letters = characters(s.as_str());
    let mut i: usize = 0;
    proof {
        assert(out@ =~= start + escaped_all(letters@.subrange(0, 0)));
    }
    while i < letters.len()
        invariant
            i <= letters.len(),
            out@ == start + escaped_all(letters@.subrange(0, i as int)),
        decreases letters.len() - i,
    {
        push_escaped(out, letters[i]);
        proof {
            let next = letters@.subrange(0, i + 1);
            assert(next.drop_last() =~= letters@.subrange(0, i as int));
            assert(out@ =~= start + escaped_all(next));
        }
        i = i + 1;
    }
    out.push('"');
    proof {
        assert(letters@.subrange(0, i as int) =~= s@);
        assert(out@ =~= old(out)@ + quoted(s@));
    }
}

fn push_json(out: &mut String, v: &Value)
    ensures
        final(out)@ == old(out)@ + json_text(v@),
    decreases v,
{
    match v {
        Value::Null => out.append("null"),
        Value::Bool(b) => if *b {
            out.append("true")
        } else {
            out.append("false")
        },
        Value::Number(n) => out.append(n.as_str()),
        Value::Text(s) => push_quoted(out, s),
        Value::Array(items) => {
            out.append("[");
            push_items(out, items);
            out.append("]");
            proof {
                array_model(*items);
                assert(item_models(items@).len() == items@.len());
                assert(out@ =~= old(out)@ + json_text(v@));
            }
        },
        Value::Object(members) => {
            out.append("{");
            push_members(out, members);
            out.append("}");
            proof {
                object_model(*members);
                assert(member_models(members@).len() == members@.len());
                assert(out@ =~= old(out)@ + json_text(v@));
            }
        },
    }
}

fn push_items(out: &mut String, items: &Vec<Value>)
    ensures
        final(out)@ == old(out)@ + items_text(item_models(items@), items@.len()),
    decreases items,
{
    let ghost models = item_models(items@);
    let mut i: usize = 0;
    proof {
        assert(out@ =~= old(out)@ + items_text(models, 0));
    }
    while i < items.len()
        invariant
            i <= items.len(),
            models == item_models(items@),
            out@ == old(out)@ + items_text(models, i as nat),
        decreases items.len() - i,
    {
        if i > 0 {
            out.append(",");
        }
        push_json(out, &items[i]);
        proof {
            assert(models[i as int] == items@[i as int]@);
            assert(models.len() == items.len());
            assert(out@ =~= old(out)@ + items_text(models, (i + 1) as nat));
        }
        i = i + 1;
    }
}

fn push_members(out: &mut String, members: &Vec<Member>)
    ensures
        final(out)@ == old(out)@ + members_text(member_models(members@), members@.len()),
    decreases members,
{
    let ghost models = member_models(members@);
    let mut i: usize = 0;
    proof {
        assert(out@ =~= old(out)@ + members_text(models, 0));
    }
    while i < members.len()
        invariant
            i <= members.len(),
            models == member_models(members@),
            out@ == old(out)@ + members_text(models, i as nat),
        decreases members.len() - i,
    {
        if i > 0 {
            out.append(",");
        }
        push_quoted(out, &members[i].key);
        out.append(":");
        push_json(out, &members[i].value);
        proof {
            assert(models[i as int] == members@[i as int]@);
            assert(models.len() == members.len());
            assert(out@ =~= old(out)@ + members_text(models, (i + 1) as nat));
        }
        i = i + 1;
    }
}

} // verus!
