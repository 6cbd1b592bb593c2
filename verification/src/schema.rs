//! Validation of configurations against JSON Schemas.
use crate::json::{json_content, parse_json, parse_text, parsed_json};
use crate::order::same_text;
use crate::value::{
    array_model, item_models, json_text, member_models, object_model, JsonModel, Member, Value,
};
use serde_json::Value as Json;
use vstd::prelude::*;

verus! {

// ---------------------------------------------------------------------------------------------
// How deep a validation may go
// ---------------------------------------------------------------------------------------------

/// Counting ends here.
pub const COUNT_LIMIT: u64 = 100_000;

/// How many steps inside one another a validation may take.
pub const STEP_LIMIT: u64 = 2_000;

/// A count, up to the limit of counting.
pub open spec fn capped(n: int) -> int {
    if n > COUNT_LIMIT {
        COUNT_LIMIT as int
    } else {
        n
    }
}

/// How deep a value is nested, how many objects it holds, and how many references.
pub struct Measure {
    pub depth: int,
    pub objects: int,
    pub references: int,
}

/// The key of a reference.
pub open spec fn is_reference(key: Seq<char>) -> bool {
    key == "$ref"@ || key == "$dynamicRef"@
}

/// Two measures side by side.
pub open spec fn beside(a: Measure, b: Measure) -> Measure {
    Measure {
        depth: if a.depth > b.depth {
            a.depth
        } else {
            b.depth
        },
        objects: capped(a.objects + b.objects),
        references: capped(a.references + b.references),
    }
}

/// The measure of a value.
pub open spec fn measure(v: JsonModel) -> Measure
    decreases v, 0nat,
{
    match v {
        JsonModel::Array(items) => {
            let inner = items_measure(items, items.len());
            Measure { depth: capped(inner.depth + 1), ..inner }
        },
        JsonModel::Object(members) => {
            let inner = members_measure(members, members.len());
            Measure {
                depth: capped(inner.depth + 1),
                objects: capped(inner.objects + 1),
                references: inner.references,
            }
        },
        _ => Measure { depth: 0, objects: 0, references: 0 },
    }
}

/// The measure of the first `n` items.
pub open spec fn items_measure(items: Seq<JsonModel>, n: nat) -> Measure
    decreases items, n,
{
    if n == 0 || n > items.len() {
        Measure { depth: 0, objects: 0, references: 0 }
    } else {
        beside(items_measure(items, (n - 1) as nat), measure(items[n - 1]))
    }
}

/// The measure of the first `n` members.
pub open spec fn members_measure(members: Seq<(Seq<char>, JsonModel)>, n: nat) -> Measure
    decreases members, n,
{
    if n == 0 || n > members.len() {
        Measure { depth: 0, objects: 0, references: 0 }
    } else {
        let here = measure(members[n - 1].1);
        let more: int = if is_reference(members[n - 1].0) {
            1
        } else {
            0
        };
        beside(
            members_measure(members, (n - 1) as nat),
            Measure { references: capped(here.references + more), ..here },
        )
    }
}

/// The most steps inside one another that validating an instance against a schema takes.
/// Without references that is the depth of the schema. With them, at each level of the instance
/// every reference may be followed once, so no more steps are taken there than the schema has
/// objects, or than it is deep for each reference; and a reference may lead into the schemas of
/// schemas that a validator knows, which take a few more.
pub open spec fn steps_inside(schema: Measure, instance: Measure) -> int {
    if schema.references == 0 {
        schema.depth
    } else {
        let chained = (schema.references + 1) * schema.depth;
        let here = if chained < schema.objects {
            chained
        } else {
            schema.objects
        };
        (here + 16) * (instance.depth + 1)
    }
}

/// A validation stays within its bounds.
pub open spec fn within_bounds(schema: JsonModel, instance: JsonModel) -> bool {
    steps_inside(measure(schema), measure(instance)) <= STEP_LIMIT
}

#[derive(Clone, Copy, Debug)]
struct Counts {
    depth: u64,
    objects: u64,
    references: u64,
}

impl Counts {
    spec fn is(self, m: Measure) -> bool {
        &&& self.depth == m.depth
        &&& self.objects == m.objects
        &&& self.references == m.references
        &&& self.depth <= COUNT_LIMIT
        &&& self.objects <= COUNT_LIMIT
        &&& self.references <= COUNT_LIMIT
    }
}

fn cap(n: u64) -> (r: u64)
    ensures
        r == capped(n as int),
        r <= COUNT_LIMIT,
{
    if n > COUNT_LIMIT {
        COUNT_LIMIT
    } else {
        n
    }
}

fn combine(a: Counts, b: Counts, Ghost(x): Ghost<Measure>, Ghost(y): Ghost<Measure>) -> (r: Counts)
    requires
        a.is(x),
        b.is(y),
    ensures
        r.is(beside(x, y)),
{
    Counts {
        depth: if a.depth > b.depth {
            a.depth
        } else {
            b.depth
        },
        objects: cap(a.objects + b.objects),
        references: cap(a.references + b.references),
    }
}

fn count(v: &Value) -> (r: Counts)
    ensures
        r.is(measure(v@)),
    decreases v,
{
    match v {
        Value::Array(items) => {
            proof {
                array_model(*items);
                assert(item_models(items@).len() == items@.len());
            }
            let inner = count_items(items);
            Counts { depth: cap(inner.depth + 1), ..inner }
        },
        Value::Object(members) => {
            proof {
                object_model(*members);
                assert(member_models(members@).len() == members@.len());
            }
            let inner = count_members(members);
            Counts {
                depth: cap(inner.depth + 1),
                objects: cap(inner.objects + 1),
                references: inner.references,
            }
        },
        _ => Counts { depth: 0, objects: 0, references: 0 },
    }
}

fn count_items(items: &Vec<Value>) -> (r: Counts)
    ensures
        r.is(items_measure(item_models(items@), items@.len())),
    decreases items,
{
    let ghost models = item_models(items@);
    let mut out = Counts { depth: 0, objects: 0, references: 0 };
    let mut i: usize = 0;
    while i < items.len()
        invariant
            i <= items.len(),
            models == item_models(items@),
            out.is(items_measure(models, i as nat)),
        decreases items.len() - i,
    {
        let here = count(&items[i]);
        proof {
            assert(models[i as int] == items@[i as int]@);
            assert(models.len() == items.len());
        }
        out = combine(
            out,
            here,
            Ghost(items_measure(models, i as nat)),
            Ghost(measure(models[i as int])),
        );
        i = i + 1;
    }
    out
}

fn count_members(members: &Vec<Member>) -> (r: Counts)
    ensures
        r.is(members_measure(member_models(members@), members@.len())),
    decreases members,
{
    let ghost models = member_models(members@);
    let mut out = Counts { depth: 0, objects: 0, references: 0 };
    let mut i: usize = 0;
    while i < members.len()
        invariant
            i <= members.len(),
            models == member_models(members@),
            out.is(members_measure(models, i as nat)),
        decreases members.len() - i,
    {
        let inner = count(&members[i].value);
        let key = members[i].key.as_str();
        let more: u64 = if same_text(key, "$ref") || same_text(key, "$dynamicRef") {
            1
        } else {
            0
        };
        let here = Counts { references: cap(inner.references + more), ..inner };
        proof {
            assert(models[i as int] == members@[i as int]@);
            assert(models.len() == members.len());
        }
        out = combine(
            out,
            here,
            Ghost(members_measure(models, i as nat)),
            Ghost(
                Measure {
                    references: capped(
                        measure(models[i as int].1).references + if is_reference(
                            models[i as int].0,
                        ) {
                            1int
                        } else {
                            0int
                        },
                    ),
                    ..measure(models[i as int].1)
                },
            ),
        );
        i = i + 1;
    }
    out
}

fn stays_within_bounds(schema: &Value, instance: &Value) -> (r: bool)
    ensures
        r == within_bounds(schema@, instance@),
{
    let a = count(schema);
    let b = count(instance);
    if a.references == 0 {
        return a.depth <= STEP_LIMIT;
    }
    proof {
        assert((a.references + 1) * a.depth <= 100_001 * 100_000) by (nonlinear_arith)
            requires
                0 <= a.references <= 100_000,
                0 <= a.depth <= 100_000,
        ;
    }
    let chained = (a.references + 1) * a.depth;
    let here = if chained < a.objects {
        chained
    } else {
        a.objects
    };
    proof {
        assert((here + 16) * (b.depth + 1) <= 100_016 * 100_001) by (nonlinear_arith)
            requires
                0 <= here <= 100_000,
                0 <= b.depth <= 100_000,
        ;
    }
    (here + 16) * (b.depth + 1) <= STEP_LIMIT
}

// ---------------------------------------------------------------------------------------------
// Verdicts
// ---------------------------------------------------------------------------------------------

/// How an instance fares against a schema: the schema itself is refused, or the instance
/// violates it first at this place with this message, or all is well.
pub uninterp spec fn schema_verdict(schema: JsonModel, instance: JsonModel) -> Result<
    Option<(Seq<char>, Seq<char>)>,
    (),
>;

/// The content of a verdict, but for what is said against a refused schema.
pub open spec fn verdict_model(verdict: Result<Option<(String, String)>, String>) -> Result<
    Option<(Seq<char>, Seq<char>)>,
    (),
> {
    match verdict {
        Ok(None) => Ok(None),
        Ok(Some((path, message))) => Ok(Some((path@, message@))),
        Err(_) => Err(()),
    }
}

/// `jsonschema::draft202012::new` compiles the schema and `Validator::validate` checks the
/// instance. The verdict is a function of the two values alone: no reference outside the schema
/// is ever followed, but for those to the schemas of schemas that the validator holds itself.
/// Validation goes one step deeper for each nested schema and each reference that it follows,
/// so it needs a bound on both. Which of several broken references a refusal names is left open,
/// and so is the text of a refusal.
#[verifier::external_body]
fn check_value(schema: &Json, instance: &Json) -> (r: Result<Option<(String, String)>, String>)
    requires
        within_bounds(json_content(*schema), json_content(*instance)),
    ensures
        verdict_model(r) == schema_verdict(json_content(*schema), json_content(*instance)),
{
    let validator = jsonschema::draft202012::new(schema).map_err(|e| e.to_string())?;
    let violation = validator.validate(instance).err();
    Ok(violation.map(|e| (e.instance_path().as_str().to_owned(), e.to_string())))
}

/// How a configuration fares against a schema. Both are read from their JSON text, so values
/// nested too deep for that are refused with the schema, and so is a schema whose references
/// would lead the validation too deep.
pub open spec fn config_verdict(schema: JsonModel, config: JsonModel) -> Result<
    Option<(Seq<char>, Seq<char>)>,
    (),
> {
    match (parsed_json(json_text(schema)), parsed_json(json_text(config))) {
        (Ok(schema), Ok(config)) => if within_bounds(schema, config) {
            schema_verdict(schema, config)
        } else {
            Err(())
        },
        _ => Err(()),
    }
}

/// Checks a configuration against a schema.
pub fn check_config(schema: &Value, config: &Value) -> (r: Result<
    Option<(String, String)>,
    String,
>)
    ensures
        verdict_model(r) == config_verdict(schema@, config@),
        match (parsed_json(json_text(schema@)), parsed_json(json_text(config@))) {
            (Err(message), _) => r matches Err(given) && given@ == message,
            (Ok(_), Err(message)) => r matches Err(given) && given@ == message,
            (Ok(schema), Ok(config)) => !within_bounds(schema, config) ==> (r matches Err(given)
                && given@ == "schema references lead too deep"@),
        },
{
    let schema_text = schema.to_json();
    let config_text = config.to_json();
    let schema = match parse_json(schema_text.as_str()) {
        Err(message) => return Err(message),
        Ok(schema) => schema,
    };
    let config = match parse_json(config_text.as_str()) {
        Err(message) => return Err(message),
        Ok(config) => config,
    };
    if !stays_within_bounds(&schema, &config) {
        return Err("schema references lead too deep".to_owned());
    }
    match (parse_text(schema_text.as_str()), parse_text(config_text.as_str())) {
        (Ok(schema), Ok(config)) => check_value(&schema, &config),
        (Err(message), _) => Err(message),
        (_, Err(message)) => Err(message),
    }
}

} // verus!
