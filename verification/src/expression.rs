//! Embedded expressions in YAML documents.
use crate::entry::{LoaderError, LoaderErrorModel};
use crate::json::{json_content, value_of};
use crate::order::same_text;
use crate::sorting::{
    ordered_ascending, ordered_descending, sort_ascending, sort_descending,
};
use crate::text::{decimal, group_views, push_decimal, views};
use crate::value::{
    array_model, item_models, json_text, member_models, object_model, set_member, with_member,
    JsonModel, Member, Value,
};
use serde_json::Value as Json;
use vstd::prelude::*;

verus! {

broadcast use group_views;

/// Budgets for one expression.
#[derive(Clone, Copy, Debug, PartialEq, Eq, Structural)]
pub struct ExprLimits {
    pub max_operations: u64,
    pub max_depth: usize,
    pub max_function_depth: usize,
    pub max_string_size: usize,
    pub max_array_size: usize,
    pub max_map_size: usize,
}

/// Why an expression has no value.
#[derive(Clone, Debug, PartialEq, Eq)]
pub enum ExprFault {
    Context(String),
    Failed(String),
    NotJson(String),
}

/// Evaluates expressions within budgets and without the disabled keywords.
#[derive(Clone, Copy, Debug, Default)]
pub struct ExprEvaluator;

/// The keywords no expression may use.
pub open spec fn disabled_keywords() -> Seq<Seq<char>> {
    seq!["eval"@, "import"@, "export"@, "fn"@, "while"@, "loop"@, "for"@, "try"@, "throw"@]
}

/// The budgets of every expression.
pub open spec fn expression_limits() -> ExprLimits {
    ExprLimits {
        max_operations: 10_000,
        max_depth: 32,
        max_function_depth: 16,
        max_string_size: 65_536,
        max_array_size: 10_000,
        max_map_size: 10_000,
    }
}

/// A script engine.
#[verifier::external_type_specification]
#[verifier::external_body]
pub struct ScriptEngine(rhai::Engine);

/// What an engine was given: budgets and disabled symbols, and whether scripts can block the
/// thread, write to the standard output, define functions without a name, and sort with the
/// engine's own functions.
pub struct EngineModel {
    pub limits: ExprLimits,
    pub disabled: Set<Seq<char>>,
    pub sleeps: bool,
    pub prints: bool,
    pub debugs: bool,
    pub closures: bool,
    pub sorts: bool,
}

/// What an engine was given.
pub uninterp spec fn engine_settings(engine: rhai::Engine) -> EngineModel;

/// An expression may come to an outcome: its value, or the stage it failed at and a message. More
/// than one outcome is possible, since an expression may look at the clock.
pub uninterp spec fn may_yield(
    settings: EngineModel,
    variable: Seq<char>,
    context: Seq<char>,
    expression: Seq<char>,
    outcome: Result<JsonModel, (int, Seq<char>)>,
) -> bool;

/// A fault: the stage at which an expression failed, and the message.
pub open spec fn fault_model(fault: ExprFault) -> (int, Seq<char>) {
    match fault {
        ExprFault::Context(error) => (0int, error@),
        ExprFault::Failed(error) => (1int, error@),
        ExprFault::NotJson(error) => (2int, error@),
    }
}

/// The content of an outcome.
pub open spec fn outcome_model(outcome: Result<Value, ExprFault>) -> Result<
    JsonModel,
    (int, Seq<char>),
> {
    match outcome {
        Ok(value) => Ok(value@),
        Err(fault) => Err(fault_model(fault)),
    }
}

/// The content of an outcome as the engine delivers it.
pub open spec fn engine_outcome(outcome: Result<Json, ExprFault>) -> Result<
    JsonModel,
    (int, Seq<char>),
> {
    match outcome {
        Ok(json) => Ok(json_content(json)),
        Err(fault) => Err(fault_model(fault)),
    }
}

/// What an engine for expressions is given.
pub open spec fn expression_settings() -> EngineModel {
    EngineModel {
        limits: expression_limits(),
        disabled: disabled_keywords().to_set(),
        sleeps: false,
        prints: false,
        debugs: false,
        closures: false,
        sorts: false,
    }
}

/// `rhai::Engine::new`, and its setters for the given budgets. A new engine has no disabled
/// symbols, and lets scripts do everything else.
#[verifier::external_body]
fn limited_engine(limits: &ExprLimits) -> (r: rhai::Engine)
    ensures
        engine_settings(r) == (EngineModel {
            limits: *limits,
            disabled: Set::<Seq<char>>::empty(),
            sleeps: true,
            prints: true,
            debugs: true,
            closures: true,
            sorts: true,
        }),
{
    let mut engine = rhai::Engine::new();
    engine
        .set_max_operations(limits.max_operations)
        .set_max_expr_depths(limits.max_depth, limits.max_function_depth)
        .set_max_string_size(limits.max_string_size)
        .set_max_array_size(limits.max_array_size)
        .set_max_map_size(limits.max_map_size);
    engine
}

/// `rhai::Engine::disable_symbol`: scripts can no longer use the symbol, and nothing else
/// changes.
#[verifier::external_body]
fn disable_symbol(engine: &mut rhai::Engine, symbol: &str)
    ensures
        engine_settings(*final(engine)) == (EngineModel {
            disabled: engine_settings(*old(engine)).disabled.insert(symbol@),
            ..engine_settings(*old(engine))
        }),
{
    engine.disable_symbol(symbol);
}

/// `rhai::Engine::register_fn` for `sleep` on integers and floating-point numbers. What an engine
/// was given itself hides what its packages hold, so scripts that sleep, by whatever name they
/// call it, come back at once. The packages' own `sleep` blocks the thread, and panics on a
/// floating-point number of seconds that no duration holds.
#[verifier::external_body]
fn never_sleep(engine: &mut rhai::Engine)
    ensures
        engine_settings(*final(engine)) == (EngineModel {
            sleeps: false,
            ..engine_settings(*old(engine))
        }),
{
    engine.register_fn("sleep", |_: rhai::INT| ());
    engine.register_fn("sleep", |_: rhai::FLOAT| ());
}

/// `rhai::Engine::on_print`: `print` no longer writes to the standard output, which panics where
/// that cannot be written to.
#[verifier::external_body]
fn never_print(engine: &mut rhai::Engine)
    ensures
        engine_settings(*final(engine)) == (EngineModel {
            prints: false,
            ..engine_settings(*old(engine))
        }),
{
    engine.on_print(|_| ());
}

/// `rhai::Engine::on_debug`: `debug` no longer writes to the standard output, which panics where
/// that cannot be written to.
#[verifier::external_body]
fn never_debug(engine: &mut rhai::Engine)
    ensures
        engine_settings(*final(engine)) == (EngineModel {
            debugs: false,
            ..engine_settings(*old(engine))
        }),
{
    engine.on_debug(|_, _, _| ());
}

/// `rhai::Engine::set_allow_anonymous_fn`: scripts can no longer define functions without a name.
/// Operations inside such functions are counted anew for each call, and they can nest values
/// without a limit.
#[verifier::external_body]
fn refuse_closures(engine: &mut rhai::Engine)
    ensures
        engine_settings(*final(engine)) == (EngineModel {
            closures: false,
            ..engine_settings(*old(engine))
        }),
{
    engine.set_allow_anonymous_fn(false);
}

/// `rhai::Engine::register_fn` for `sort`, `sort_desc`, `order` and `order_desc` on arrays. What
/// an engine was given itself hides what its packages hold. The packages' own functions may
/// panic on an array that holds a floating-point NaN.
#[verifier::external_body]
fn sort_by_total_order(engine: &mut rhai::Engine)
    ensures
        engine_settings(*final(engine)) == (EngineModel {
            sorts: false,
            ..engine_settings(*old(engine))
        }),
{
    engine.register_fn("sort", sort_ascending);
    engine.register_fn("sort_desc", sort_descending);
    engine.register_fn("order", ordered_ascending);
    engine.register_fn("order_desc", ordered_descending);
}

/// `rhai::Engine::eval_expression_with_scope` in a scope that holds `context` under the name
/// `variable`. The context comes as JSON text, read with `serde_json::from_str`, which refuses a
/// text nested 128 deep or more and so keeps what follows within its stack; values cross through
/// `rhai::serde::to_dynamic` and `rhai::serde::from_dynamic`. What an expression comes to is left
/// open, since it may look at the clock; claimed is only what it may depend on besides.
#[verifier::external_body]
fn run_expression(
    engine: &rhai::Engine,
    variable: &str,
    context: &str,
    expression: &str,
) -> (r: Result<Json, ExprFault>)
    requires
        engine_settings(*engine) == expression_settings(),
    ensures
        may_yield(
            engine_settings(*engine),
            variable@,
            context@,
            expression@,
            engine_outcome(r),
        ),
{
    let value: Json =
        serde_json::from_str(context).map_err(|e| ExprFault::Context(e.to_string()))?;
    let value = rhai::serde::to_dynamic(value).map_err(|e| ExprFault::Context(e.to_string()))?;
    let mut scope = rhai::Scope::new();
    scope.push_dynamic(variable, value);
    let found: rhai::Dynamic = engine
        .eval_expression_with_scope(&mut scope, expression)
        .map_err(|e| ExprFault::Failed(e.to_string()))?;
    rhai::serde::from_dynamic(&found).map_err(|e| ExprFault::NotJson(e.to_string()))
}

/// What an outcome means to the document: the value, or an error that names the expression.
pub open spec fn explained(expression: Seq<char>, outcome: Result<Value, ExprFault>) -> Result<
    JsonModel,
    LoaderErrorModel,
> {
    match outcome {
        Ok(value) => Ok(value@),
        Err(ExprFault::Context(error)) => Err(
            LoaderErrorModel::Include("invalid expression context: "@ + error@),
        ),
        Err(ExprFault::Failed(error)) => Err(
            LoaderErrorModel::Include("!expr `"@ + expression + "` failed: "@ + error@),
        ),
        Err(ExprFault::NotJson(error)) => Err(
            LoaderErrorModel::Include("!expr result is not JSON: "@ + error@),
        ),
    }
}

/// The content of an evaluated expression.
pub open spec fn value_model(r: Result<Value, LoaderError>) -> Result<
    JsonModel,
    LoaderErrorModel,
> {
    match r {
        Ok(value) => Ok(value@),
        Err(error) => Err(error@),
    }
}

/// The contents of evaluated expressions.
pub open spec fn value_models(results: Seq<Result<Value, LoaderError>>) -> Seq<
    Result<JsonModel, LoaderErrorModel>,
> {
    Seq::new(results.len(), |i: int| value_model(results[i]))
}

/// Turns an outcome into what the document sees.
pub fn explain(expression: &str, outcome: Result<Value, ExprFault>) -> (r: Result<
    Value,
    LoaderError,
>)
    ensures
        value_model(r) == explained(expression@, outcome),
{
    match outcome {
        Ok(value) => Ok(value),
        Err(ExprFault::Context(error)) => {
            let mut message = "invalid expression context: ".to_owned();
            message.append(error.as_str());
            Err(LoaderError::Include(message))
        },
        Err(ExprFault::Failed(error)) => {
            let mut message = "!expr `".to_owned();
            message.append(expression);
            message.append("` failed: ");
            message.append(error.as_str());
            Err(LoaderError::Include(message))
        },
        Err(ExprFault::NotJson(error)) => {
            let mut message = "!expr result is not JSON: ".to_owned();
            message.append(error.as_str());
            Err(LoaderError::Include(message))
        },
    }
}

/// The outcome is one that an expression may have within the budgets and without the disabled
/// keywords, with the context named `ctx`.
pub open spec fn may_see(
    context: JsonModel,
    expression: Seq<char>,
    outcome: Result<Value, ExprFault>,
) -> bool {
    may_yield(
        expression_settings(),
        "ctx"@,
        json_text(context),
        expression,
        outcome_model(outcome),
    )
}

fn keywords() -> (r: Vec<&'static str>)
    ensures
        views(r@) == disabled_keywords(),
{
    let mut disabled: Vec<&'static str> = Vec::new();
    disabled.push("eval");
    disabled.push("import");
    disabled.push("export");
    disabled.push("fn");
    disabled.push("while");
    disabled.push("loop");
    disabled.push("for");
    disabled.push("try");
    disabled.push("throw");
    proof {
        assert(views(disabled@) =~= disabled_keywords());
    }
    disabled
}

/// An engine for expressions: limited, without the disabled keywords and functions without a
/// name, with sorting by a total order, and neither asleep nor writing anything.
fn expression_engine() -> (r: rhai::Engine)
    ensures
        engine_settings(r) == expression_settings(),
{
    let limits = ExprLimits {
        max_operations: 10_000,
        max_depth: 32,
        max_function_depth: 16,
        max_string_size: 64 * 1024,
        max_array_size: 10_000,
        max_map_size: 10_000,
    };
    let ghost symbols = disabled_keywords();
    let disabled = keywords();
    let mut engine = limited_engine(&limits);
    let mut i: usize = 0;
    proof {
        assert(symbols.take(0).to_set() =~= Set::empty());
    }
    while i < disabled.len()
        invariant
            symbols == views(disabled@),
            i <= disabled.len(),
            engine_settings(engine) == (EngineModel {
                limits: expression_limits(),
                disabled: symbols.take(i as int).to_set(),
                sleeps: true,
                prints: true,
                debugs: true,
                closures: true,
                sorts: true,
            }),
        decreases disabled.len() - i,
    {
        let ghost before = symbols.take(i as int);
        disable_symbol(&mut engine, disabled[i]);
        proof {
            let after = symbols.take(i + 1);
            assert(after =~= before.push(symbols[i as int]));
            assert forall|s: Seq<char>| #[trigger]
                after.contains(s) <==> before.contains(s) || s == symbols[i as int] by {
                if before.contains(s) {
                    let k = choose|k: int| 0 <= k < before.len() && before[k] == s;
                    assert(after[k] == s);
                }
                assert(after[i as int] == symbols[i as int]);
            }
            assert(after.to_set() =~= before.to_set().insert(symbols[i as int]));
        }
        i = i + 1;
    }
    proof {
        assert(symbols.take(i as int) =~= symbols);
    }
    never_sleep(&mut engine);
    never_print(&mut engine);
    never_debug(&mut engine);
    refuse_closures(&mut engine);
    sort_by_total_order(&mut engine);
    engine
}

impl ExprEvaluator {
    /// Evaluates one expression against a JSON snapshot named `ctx`. An expression that sleeps
    /// does not wait, one that prints writes nothing, and a function without a name is refused
    /// as the keyword `fn` is. Sorting puts a floating-point NaN last.
    pub fn evaluate(&self, expression: &str, context: &Value) -> (r: Result<Value, LoaderError>)
        ensures
            exists|outcome: Result<Value, ExprFault>| #[trigger]
                may_see(context@, expression@, outcome) && value_model(r) == explained(
                    expression@,
                    outcome,
                ),
    {
        let engine = expression_engine();
        let found = run_expression(&engine, "ctx", context.to_json().as_str(), expression);
        let outcome = match found {
            Ok(json) => Ok(value_of(json)),
            Err(fault) => Err(fault),
        };
        let ghost seen = outcome;
        let r = explain(expression, outcome);
        proof {
            assert(may_see(context@, expression@, seen));
        }
        r
    }
}

/// A YAML value. A float is kept as its JSON spelling, if it has one.
#[derive(Debug)]
pub enum YamlNode {
    Null,
    Bool(bool),
    Integer(i64),
    Unsigned(u64),
    Float(Option<String>),
    Text(String),
    Sequence(Vec<TaggedNode>),
    Mapping(Vec<TaggedMember>),
}

/// A YAML value with its tag.
#[derive(Debug)]
pub struct TaggedNode {
    pub tag: Option<String>,
    pub node: YamlNode,
}

/// One entry of a mapping. Mappings are in key order.
#[derive(Debug)]
pub struct TaggedMember {
    pub key: String,
    pub value: TaggedNode,
}

/// A tag that marks an expression.
pub open spec fn is_expr(tag: Option<String>) -> bool {
    tag is Some && tag->Some_0@ == "!expr"@
}

/// How many expressions a value holds.
pub open spec fn expr_count(t: TaggedNode) -> nat
    decreases t, 0nat,
{
    match t.tag {
        Some(_) => if is_expr(t.tag) && t.node is Text {
            1
        } else {
            0
        },
        None => match t.node {
            YamlNode::Sequence(items) => items_count(items, items@.len()),
            YamlNode::Mapping(members) => members_count(members, members@.len()),
            _ => 0,
        },
    }
}

/// How many expressions the first `n` items hold.
pub open spec fn items_count(items: Vec<TaggedNode>, n: nat) -> nat
    decreases items, n,
{
    if n == 0 || n > items@.len() {
        0
    } else {
        items_count(items, (n - 1) as nat) + expr_count(items@[n - 1])
    }
}

/// How many expressions the first `n` members hold.
pub open spec fn members_count(members: Vec<TaggedMember>, n: nat) -> nat
    decreases members, n,
{
    if n == 0 || n > members@.len() {
        0
    } else {
        members_count(members, (n - 1) as nat) + expr_count(members@[n - 1].value)
    }
}

/// The expressions of a value, in document order.
pub open spec fn expressions(t: TaggedNode) -> Seq<Seq<char>>
    decreases t, 0nat,
{
    match t.tag {
        Some(_) => match t.node {
            YamlNode::Text(expression) => if is_expr(t.tag) {
                seq![expression@]
            } else {
                Seq::empty()
            },
            _ => Seq::empty(),
        },
        None => match t.node {
            YamlNode::Sequence(items) => items_expressions(items, items@.len()),
            YamlNode::Mapping(members) => members_expressions(members, members@.len()),
            _ => Seq::empty(),
        },
    }
}

/// The expressions of the first `n` items.
pub open spec fn items_expressions(items: Vec<TaggedNode>, n: nat) -> Seq<Seq<char>>
    decreases items, n,
{
    if n == 0 || n > items@.len() {
        Seq::empty()
    } else {
        items_expressions(items, (n - 1) as nat) + expressions(items@[n - 1])
    }
}

/// The expressions of the first `n` members.
pub open spec fn members_expressions(members: Vec<TaggedMember>, n: nat) -> Seq<Seq<char>>
    decreases members, n,
{
    if n == 0 || n > members@.len() {
        Seq::empty()
    } else {
        members_expressions(members, (n - 1) as nat) + expressions(members@[n - 1].value)
    }
}

/// A signed number in decimal.
pub open spec fn signed_text(n: int) -> Seq<char> {
    if n < 0 {
        "-"@ + decimal((-n) as nat)
    } else {
        decimal(n as nat)
    }
}

/// A value as JSON, its expressions replaced by `results` from position `from` on. Other
/// tags, expressions that are no text, and numbers JSON cannot spell are refused.
pub open spec fn yaml_json(
    t: TaggedNode,
    results: Seq<Result<JsonModel, LoaderErrorModel>>,
    from: int,
) -> Result<JsonModel, LoaderErrorModel>
    decreases t, 0nat,
{
    match t.tag {
        Some(tag) => if tag@ != "!expr"@ {
            Err(LoaderErrorModel::Include("unsupported YAML tag `"@ + tag@ + "`"@))
        } else if t.node is Text {
            results[from]
        } else {
            Err(LoaderErrorModel::Include("!expr value must be a scalar expression"@))
        },
        None => match t.node {
            YamlNode::Null => Ok(JsonModel::Null),
            YamlNode::Bool(b) => Ok(JsonModel::Bool(b)),
            YamlNode::Integer(n) => Ok(JsonModel::Number(signed_text(n as int))),
            YamlNode::Unsigned(n) => Ok(JsonModel::Number(decimal(n as nat))),
            YamlNode::Float(Some(text)) => Ok(JsonModel::Number(text@)),
            YamlNode::Float(None) => Err(LoaderErrorModel::Include("non-finite YAML number"@)),
            YamlNode::Text(text) => Ok(JsonModel::Text(text@)),
            YamlNode::Sequence(items) => match items_json(items, items@.len(), results, from) {
                Err(error) => Err(error),
                Ok(inner) => Ok(JsonModel::Array(inner)),
            },
            YamlNode::Mapping(members) => match members_json(
                members,
                members@.len(),
                results,
                from,
            ) {
                Err(error) => Err(error),
                Ok(inner) => Ok(JsonModel::Object(inner)),
            },
        },
    }
}

/// The first `n` items as JSON.
pub open spec fn items_json(
    items: Vec<TaggedNode>,
    n: nat,
    results: Seq<Result<JsonModel, LoaderErrorModel>>,
    from: int,
) -> Result<Seq<JsonModel>, LoaderErrorModel>
    decreases items, n,
{
    if n == 0 || n > items@.len() {
        Ok(Seq::empty())
    } else {
        match items_json(items, (n - 1) as nat, results, from) {
            Err(error) => Err(error),
            Ok(before) => match yaml_json(
                items@[n - 1],
                results,
                from + items_count(items, (n - 1) as nat),
            ) {
                Err(error) => Err(error),
                Ok(value) => Ok(before.push(value)),
            },
        }
    }
}

/// The first `n` members as members of a JSON object.
pub open spec fn members_json(
    members: Vec<TaggedMember>,
    n: nat,
    results: Seq<Result<JsonModel, LoaderErrorModel>>,
    from: int,
) -> Result<Seq<(Seq<char>, JsonModel)>, LoaderErrorModel>
    decreases members, n,
{
    if n == 0 || n > members@.len() {
        Ok(Seq::empty())
    } else {
        match members_json(members, (n - 1) as nat, results, from) {
            Err(error) => Err(error),
            Ok(before) => match yaml_json(
                members@[n - 1].value,
                results,
                from + members_count(members, (n - 1) as nat),
            ) {
                Err(error) => Err(error),
                Ok(value) => Ok(with_member(before, members@[n - 1].key@, value)),
            },
        }
    }
}

fn tagged_expr(tag: &Option<String>) -> (r: bool)
    ensures
        r == is_expr(*tag),
{
    match tag {
        Some(text) => same_text(text.as_str(), "!expr"),
        None => false,
    }
}

/// Lists the expressions of a value, in document order.
pub fn collect_expressions(t: &TaggedNode) -> (r: Vec<String>)
    ensures
        views(r@) == expressions(*t),
        r@.len() == expr_count(*t),
    decreases t, 1nat,
{
    let mut out: Vec<String> = Vec::new();
    proof {
        assert(views(out@) =~= Seq::empty());
    }
    match &t.tag {
        Some(_) => {
            if let YamlNode::Text(expression) = &t.node {
                if tagged_expr(&t.tag) {
                    out.push(expression.clone());
                    proof {
                        assert(views(out@) =~= seq![expression@]);
                    }
                }
            }
            out
        },
        None => match &t.node {
            YamlNode::Sequence(items) => collect_items(items),
            YamlNode::Mapping(members) => collect_members(members),
            _ => out,
        },
    }
}

fn collect_items(items: &Vec<TaggedNode>) -> (r: Vec<String>)
    ensures
        views(r@) == items_expressions(*items, items@.len()),
        r@.len() == items_count(*items, items@.len()),
    decreases items, 0nat,
{
    let mut out: Vec<String> = Vec::new();
    let mut i: usize = 0;
    proof {
        assert(views(out@) =~= Seq::empty());
    }
    while i < items.len()
        invariant
            i <= items.len(),
            views(out@) == items_expressions(*items, i as nat),
            out@.len() == items_count(*items, i as nat),
        decreases items.len() - i,
    {
        let ghost before = views(out@);
        proof {
            assert(decreases_to!(items => items@[i as int]));
        }
        let mut more = collect_expressions(&items[i]);
        let ghost added = views(more@);
        out.append(&mut more);
        proof {
            assert(views(out@) =~= before + added);
        }
        i = i + 1;
    }
    out
}

fn collect_members(members: &Vec<TaggedMember>) -> (r: Vec<String>)
    ensures
        views(r@) == members_expressions(*members, members@.len()),
        r@.len() == members_count(*members, members@.len()),
    decreases members, 0nat,
{
    let mut out: Vec<String> = Vec::new();
    let mut i: usize = 0;
    proof {
        assert(views(out@) =~= Seq::empty());
    }
    while i < members.len()
        invariant
            i <= members.len(),
            views(out@) == members_expressions(*members, i as nat),
            out@.len() == members_count(*members, i as nat),
        decreases members.len() - i,
    {
        let ghost before = views(out@);
        proof {
            assert(decreases_to!(members => members@[i as int]));
        }
        let mut more = collect_expressions(&members[i].value);
        let ghost added = views(more@);
        out.append(&mut more);
        proof {
            assert(views(out@) =~= before + added);
        }
        i = i + 1;
    }
    out
}

fn signed(n: i64) -> (r: String)
    ensures
        r@ == signed_text(n as int),
{
    if n < 0 {
        let mut out = "-".to_owned();
        let magnitude: u64 = (-(n + 1)) as u64 + 1;
        push_decimal(&mut out, magnitude);
        out
    } else {
        let mut out = String::new();
        push_decimal(&mut out, n as u64);
        proof {
            assert(out@ =~= decimal(n as nat));
        }
        out
    }
}

fn copy_result(result: &Result<Value, LoaderError>) -> (r: Result<Value, LoaderError>)
    ensures
        value_model(r) == value_model(*result),
{
    match result {
        Ok(value) => Ok(value.duplicate()),
        Err(error) => Err(copy_error(error)),
    }
}

fn copy_error(error: &LoaderError) -> (r: LoaderError)
    ensures
        r@ == error@,
{
    match error {
        LoaderError::InvalidEntryId(id) => LoaderError::InvalidEntryId(id.clone()),
        LoaderError::DuplicateEntry(id) => LoaderError::DuplicateEntry(id.duplicate()),
        LoaderError::MissingEntry(id) => LoaderError::MissingEntry(id.duplicate()),
        LoaderError::ParentNotGroup(id) => LoaderError::ParentNotGroup(id.duplicate()),
        LoaderError::EntryCycle(id) => LoaderError::EntryCycle(id.duplicate()),
        LoaderError::InvalidComponentRef(text) => LoaderError::InvalidComponentRef(text.clone()),
        LoaderError::InvalidSchema { component, message } => LoaderError::InvalidSchema {
            component: component.clone(),
            message: message.clone(),
        },
        LoaderError::InvalidConfig { entry, path, message } => LoaderError::InvalidConfig {
            entry: entry.duplicate(),
            path: path.clone(),
            message: message.clone(),
        },
        LoaderError::Driver(message) => LoaderError::Driver(message.clone()),
        LoaderError::Include(message) => LoaderError::Include(message.clone()),
    }
}

/// A value as JSON with its expressions replaced by the given results.
pub fn tagged_to_json(
    t: &TaggedNode,
    results: &Vec<Result<Value, LoaderError>>,
    from: usize,
) -> (r: Result<Value, LoaderError>)
    requires
        from + expr_count(*t) <= results@.len(),
    ensures
        value_model(r) == yaml_json(*t, value_models(results@), from as int),
    decreases t, 1nat,
{
    match &t.tag {
        Some(tag) => {
            if !same_text(tag.as_str(), "!expr") {
                let mut message = "unsupported YAML tag `".to_owned();
                message.append(tag.as_str());
                message.append("`");
                return Err(LoaderError::Include(message));
            }
            match &t.node {
                YamlNode::Text(_) => {
                    proof {
                        assert(value_models(results@)[from as int] == value_model(
                            results@[from as int],
                        ));
                    }
                    copy_result(&results[from])
                },
                _ => Err(
                    LoaderError::Include("!expr value must be a scalar expression".to_owned()),
                ),
            }
        },
        None => match &t.node {
            YamlNode::Null => Ok(Value::Null),
            YamlNode::Bool(b) => Ok(Value::Bool(*b)),
            YamlNode::Integer(n) => Ok(Value::Number(signed(*n))),
            YamlNode::Unsigned(n) => {
                let mut out = String::new();
                push_decimal(&mut out, *n);
                proof {
                    assert(out@ =~= decimal(*n as nat));
                }
                Ok(Value::Number(out))
            },
            YamlNode::Float(Some(text)) => Ok(Value::Number(text.clone())),
            YamlNode::Float(None) => Err(
                LoaderError::Include("non-finite YAML number".to_owned()),
            ),
            YamlNode::Text(text) => Ok(Value::Text(text.clone())),
            YamlNode::Sequence(items) => match convert_items(items, results, from) {
                Err(error) => Err(error),
                Ok(inner) => {
                    proof {
                        array_model(inner);
                    }
                    Ok(Value::Array(inner))
                },
            },
            YamlNode::Mapping(members) => match convert_members(members, results, from) {
                Err(error) => Err(error),
                Ok(inner) => {
                    proof {
                        object_model(inner);
                    }
                    Ok(Value::Object(inner))
                },
            },
        },
    }
}

proof fn items_count_grows(items: Vec<TaggedNode>, n: nat, m: nat)
    requires
        n <= m <= items@.len(),
    ensures
        items_count(items, n) <= items_count(items, m),
    decreases m - n,
{
    if n < m {
        items_count_grows(items, n, (m - 1) as nat);
    }
}

proof fn members_count_grows(members: Vec<TaggedMember>, n: nat, m: nat)
    requires
        n <= m <= members@.len(),
    ensures
        members_count(members, n) <= members_count(members, m),
    decreases m - n,
{
    if n < m {
        members_count_grows(members, n, (m - 1) as nat);
    }
}

proof fn bad_item_decides(
    items: Vec<TaggedNode>,
    n: nat,
    m: nat,
    results: Seq<Result<JsonModel, LoaderErrorModel>>,
    from: int,
)
    requires
        n <= m <= items@.len(),
        items_json(items, n, results, from) is Err,
    ensures
        items_json(items, m, results, from) == items_json(items, n, results, from),
    decreases m - n,
{
    if n < m {
        bad_item_decides(items, n, (m - 1) as nat, results, from);
    }
}

proof fn bad_member_decides(
    members: Vec<TaggedMember>,
    n: nat,
    m: nat,
    results: Seq<Result<JsonModel, LoaderErrorModel>>,
    from: int,
)
    requires
        n <= m <= members@.len(),
        members_json(members, n, results, from) is Err,
    ensures
        members_json(members, m, results, from) == members_json(members, n, results, from),
    decreases m - n,
{
    if n < m {
        bad_member_decides(members, n, (m - 1) as nat, results, from);
    }
}

fn convert_items(
    items: &Vec<TaggedNode>,
    results: &Vec<Result<Value, LoaderError>>,
    from: usize,
) -> (r: Result<Vec<Value>, LoaderError>)
    requires
        from + items_count(*items, items@.len()) <= results@.len(),
    ensures
        match (r, items_json(*items, items@.len(), value_models(results@), from as int)) {
            (Ok(values), Ok(expected)) => item_models(values@) == expected,
            (Err(error), Err(expected)) => error@ == expected,
            _ => false,
        },
    decreases items, 0nat,
{
    let ghost models = value_models(results@);
    let mut out: Vec<Value> = Vec::new();
    let mut at: usize = from;
    let mut i: usize = 0;
    proof {
        assert(item_models(out@) =~= Seq::empty());
    }
    while i < items.len()
        invariant
            models == value_models(results@),
            from + items_count(*items, items@.len()) <= results@.len(),
            i <= items.len(),
            at == from + items_count(*items, i as nat),
            items_json(*items, i as nat, models, from as int) == Ok::<
                Seq<JsonModel>,
                LoaderErrorModel,
            >(item_models(out@)),
        decreases items.len() - i,
    {
        proof {
            items_count_grows(*items, (i + 1) as nat, items@.len());
            assert(decreases_to!(items => items@[i as int]));
        }
        let total = results.len();
        match tagged_to_json(&items[i], results, at) {
            Err(error) => {
                proof {
                    bad_item_decides(*items, (i + 1) as nat, items@.len(), models, from as int);
                }
                return Err(error);
            },
            Ok(value) => {
                let ghost before = item_models(out@);
                let ghost added = value@;
                out.push(value);
                proof {
                    assert(item_models(out@) =~= before.push(added));
                }
            },
        }
        let step = count_expressions(&items[i], total);
        at = at + step;
        i = i + 1;
    }
    Ok(out)
}

fn convert_members(
    members: &Vec<TaggedMember>,
    results: &Vec<Result<Value, LoaderError>>,
    from: usize,
) -> (r: Result<Vec<Member>, LoaderError>)
    requires
        from + members_count(*members, members@.len()) <= results@.len(),
    ensures
        match (r, members_json(*members, members@.len(), value_models(results@), from as int)) {
            (Ok(values), Ok(expected)) => member_models(values@) == expected,
            (Err(error), Err(expected)) => error@ == expected,
            _ => false,
        },
    decreases members, 0nat,
{
    let ghost models = value_models(results@);
    let mut out: Vec<Member> = Vec::new();
    let mut at: usize = from;
    let mut i: usize = 0;
    proof {
        assert(member_models(out@) =~= Seq::empty());
    }
    while i < members.len()
        invariant
            models == value_models(results@),
            from + members_count(*members, members@.len()) <= results@.len(),
            i <= members.len(),
            at == from + members_count(*members, i as nat),
            members_json(*members, i as nat, models, from as int) == Ok::<
                Seq<(Seq<char>, JsonModel)>,
                LoaderErrorModel,
            >(member_models(out@)),
        decreases members.len() - i,
    {
        proof {
            members_count_grows(*members, (i + 1) as nat, members@.len());
            assert(decreases_to!(members => members@[i as int]));
        }
        let total = results.len();
        match tagged_to_json(&members[i].value, results, at) {
            Err(error) => {
                proof {
                    bad_member_decides(
                        *members,
                        (i + 1) as nat,
                        members@.len(),
                        models,
                        from as int,
                    );
                }
                return Err(error);
            },
            Ok(value) => {
                set_member(&mut out, members[i].key.clone(), value);
            },
        }
        let step = count_expressions(&members[i].value, total);
        at = at + step;
        i = i + 1;
    }
    Ok(out)
}

/// Counts the expressions of a value that holds at most `bound` of them.
fn count_expressions(t: &TaggedNode, bound: usize) -> (r: usize)
    requires
        expr_count(*t) <= bound,
    ensures
        r == expr_count(*t),
{
    collect_expressions(t).len()
}

/// A document as JSON, its expressions evaluated against `context`.
pub fn yaml_to_json(t: &TaggedNode, evaluator: &ExprEvaluator, context: &Value) -> (r: Result<
    Value,
    LoaderError,
>)
    ensures
        may_become(*t, context@, value_model(r)),
        expr_count(*t) == 0 ==> value_model(r) == yaml_json(*t, Seq::empty(), 0),
{
    let list = collect_expressions(t);
    let ghost texts = expressions(*t);
    let mut results: Vec<Result<Value, LoaderError>> = Vec::new();
    let ghost mut outcomes: Seq<Result<Value, ExprFault>> = Seq::empty();
    let mut i: usize = 0;
    while i < list.len()
        invariant
            views(list@) == texts,
            i <= list.len(),
            results@.len() == i,
            outcomes.len() == i,
            forall|k: int|
                0 <= k < i ==> value_model(#[trigger] results@[k]) == explained(
                    texts[k],
                    outcomes[k],
                ),
            forall|k: int| 0 <= k < i ==> may_see(context@, texts[k], #[trigger] outcomes[k]),
        decreases list.len() - i,
    {
        let ghost so_far = outcomes;
        let result = evaluator.evaluate(list[i].as_str(), context);
        proof {
            assert(views(list@)[i as int] == list@[i as int]@);
            let seen = choose|outcome: Result<Value, ExprFault>| #[trigger]
                may_see(context@, list@[i as int]@, outcome) && value_model(result) == explained(
                    list@[i as int]@,
                    outcome,
                );
            outcomes = so_far.push(seen);
        }
        results.push(result);
        i = i + 1;
    }
    let r = tagged_to_json(t, &results, 0);
    proof {
        assert(value_models(results@) =~= all_explained(texts, outcomes));
        assert(expr_count(*t) == outcomes.len());
        if expr_count(*t) == 0 {
            assert(value_models(results@) =~= Seq::empty());
        }
    }
    r
}

/// A document may become a JSON value, or be refused: each of its expressions is replaced by an
/// outcome that it may have.
pub open spec fn may_become(
    t: TaggedNode,
    context: JsonModel,
    r: Result<JsonModel, LoaderErrorModel>,
) -> bool {
    exists|outcomes: Seq<Result<Value, ExprFault>>|
        outcomes.len() == expr_count(t) && (forall|k: int|
            0 <= k < outcomes.len() ==> may_see(
                context,
                expressions(t)[k],
                #[trigger] outcomes[k],
            )) && r == yaml_json(t, #[trigger] all_explained(expressions(t), outcomes), 0)
}

/// What the outcomes of all expressions mean to the document.
pub open spec fn all_explained(
    texts: Seq<Seq<char>>,
    outcomes: Seq<Result<Value, ExprFault>>,
) -> Seq<Result<JsonModel, LoaderErrorModel>> {
    Seq::new(outcomes.len(), |i: int| explained(texts[i], outcomes[i]))
}

} // verus!
