use cordis::context::Context;
use cordis::document::{
    apply_patches, decode_entries, is_readonly, temporary_name, IncludeDocument, IncludeFormat,
    IncludeSource, Patch, PatchAction,
};
use cordis::dynamic::DynamicComponentDescriptor;
use cordis::entry::{
    resolve_entries, ComponentRef, EntryId, EntrySpec, IsolationRule, LoaderError, ManagedRealm,
    ResolvedEntry,
};
use cordis::expression::{
    explain, yaml_to_json, ExprEvaluator, ExprFault, TaggedMember, TaggedNode, YamlNode,
};
use cordis::fiber::FiberState;
use cordis::id::{FiberId, IdSource};
use cordis::json::parse_json;
use cordis::loader::{
    awaits_activation, entry_context, entry_services, missing_component, shutdown_outcome,
    BuiltinRegistry, CheckReport, DriverStep, MountTable, MountedEntry, RealmTable, StartFact,
    StartStep,
};
use cordis::order::TextSet;
use cordis::schema::check_config;
use cordis::service::{InjectSpec, ServiceId};
use cordis::sorting::{sort_by_keys, SortKey};
use cordis::supervisor::SupervisorState;
use cordis::tree::{rollback_error, EntryTree, Operation};
use cordis::value::{Member, Value};

fn leaf(id: &str, component: &str) -> EntrySpec {
    EntrySpec::leaf(id.to_owned(), component.to_owned()).unwrap()
}

fn group(id: &str, children: Vec<EntrySpec>) -> EntrySpec {
    EntrySpec::group(id.to_owned(), children).unwrap()
}

fn id(value: &str) -> EntryId {
    EntryId::new(value.to_owned()).unwrap()
}

fn text(value: &str) -> Value {
    Value::Text(value.to_owned())
}

fn number(value: &str) -> Value {
    Value::Number(value.to_owned())
}

fn object(members: Vec<(&str, Value)>) -> Value {
    Value::Object(
        members
            .into_iter()
            .map(|(key, value)| Member {
                key: key.to_owned(),
                value,
            })
            .collect(),
    )
}

/// Turns parsed JSON into library values.
fn value(json: &serde_json::Value) -> Value {
    match json {
        serde_json::Value::Null => Value::Null,
        serde_json::Value::Bool(flag) => Value::Bool(*flag),
        serde_json::Value::Number(number) => Value::Number(number.to_string()),
        serde_json::Value::String(text) => Value::Text(text.clone()),
        serde_json::Value::Array(items) => Value::Array(items.iter().map(value).collect()),
        serde_json::Value::Object(members) => Value::Object(
            members
                .iter()
                .map(|(key, item)| Member {
                    key: key.clone(),
                    value: value(item),
                })
                .collect(),
        ),
    }
}

fn json(source: &str) -> Value {
    value(&serde_json::from_str(source).unwrap())
}

/// Runs the steps of a plan and records them.
#[derive(Default)]
struct Driver {
    events: Vec<String>,
    fail_once: Option<String>,
    with_config: bool,
}

impl Driver {
    fn run(&mut self, operation: &Operation) -> Result<(), LoaderError> {
        let event = match operation {
            Operation::Start(entry) => format!("start:{}", entry.spec.id.as_str()),
            Operation::Stop(entry) => format!("stop:{}", entry.spec.id.as_str()),
            Operation::Update { next, .. } if self.with_config => {
                format!("update:{}:{}", next.spec.id.as_str(), next.spec.config.to_json())
            }
            Operation::Update { next, .. } => format!("update:{}", next.spec.id.as_str()),
        };
        self.events.push(event.clone());
        if self.fail_once.as_deref() == Some(&event) {
            self.fail_once = None;
            return Err(LoaderError::Driver(format!("injected {event}")));
        }
        Ok(())
    }

    fn take(&mut self) -> Vec<String> {
        std::mem::take(&mut self.events)
    }
}

fn reconcile(
    tree: &mut EntryTree,
    driver: &mut Driver,
    roots: Vec<EntrySpec>,
) -> Result<(), LoaderError> {
    let mut reconciliation = tree.reconcile(roots)?;
    while let Some(operation) = reconciliation.next() {
        let outcome = driver.run(operation);
        reconciliation = reconciliation.after(outcome);
    }
    tree.conclude(reconciliation)
}

#[test]
fn keyed_reconcile_only_updates_changed_entry() {
    let mut driver = Driver::default();
    let mut tree = EntryTree::new();
    let a = leaf("a", "builtin:a");
    let b = leaf("b", "builtin:b");
    reconcile(&mut tree, &mut driver, vec![a.duplicate(), b.duplicate()]).unwrap();
    assert_eq!(driver.take(), ["start:a", "start:b"]);

    let mut changed = a;
    changed.config = object(vec![("value", number("1"))]);
    reconcile(&mut tree, &mut driver, vec![changed, b]).unwrap();
    assert_eq!(driver.take(), ["update:a"]);
}

#[test]
fn group_disable_stops_children_first_and_enable_restarts_parent_order() {
    let mut driver = Driver::default();
    let mut tree = EntryTree::new();
    let mut parent = group("group", vec![leaf("child", "builtin:child")]);
    reconcile(&mut tree, &mut driver, vec![parent.duplicate()]).unwrap();
    assert_eq!(driver.take(), ["start:child"]);
    parent.disabled = true;
    reconcile(&mut tree, &mut driver, vec![parent.duplicate()]).unwrap();
    assert_eq!(driver.take(), ["stop:child"]);
    parent.disabled = false;
    reconcile(&mut tree, &mut driver, vec![parent]).unwrap();
    assert_eq!(driver.take(), ["start:child"]);
}

#[test]
fn local_realm_survives_move_but_inherited_realm_updates_precisely() {
    let mut driver = Driver::default();
    let mut child = leaf("child", "builtin:child");
    child
        .isolate
        .insert("db".to_owned(), IsolationRule::Local(true));
    let left = group("left", vec![child]);
    let mut right = group("right", vec![]);
    right
        .isolate
        .insert("log".to_owned(), IsolationRule::Global("shared".to_owned()));
    let mut tree = EntryTree::new();
    reconcile(&mut tree, &mut driver, vec![left, right]).unwrap();
    driver.take();
    let moved = tree
        .move_entry(&id("child"), Some(&id("right")), 0)
        .unwrap();
    reconcile(&mut tree, &mut driver, moved).unwrap();
    assert_eq!(driver.take(), ["update:child"]);
    let child = tree.entries().get("child").unwrap();
    assert!(
        matches!(child.realms.get("db"), Some(ManagedRealm::Local { owner, .. }) if owner.as_str() == "child")
    );
    assert!(
        matches!(child.realms.get("log"), Some(ManagedRealm::Global { label, .. }) if label == "shared")
    );
}

#[test]
fn schema_is_checked_before_start() {
    let mut driver = Driver::default();
    let mut tree = EntryTree::new();
    tree.register_schema("builtin:a".to_owned(), object(vec![("type", text("integer"))]));
    let mut entry = leaf("a", "builtin:a");
    entry.config = text("wrong");
    assert!(matches!(
        reconcile(&mut tree, &mut driver, vec![entry]),
        Err(LoaderError::InvalidConfig { .. })
    ));
    assert!(driver.take().is_empty());
    let mut fixed = leaf("a", "builtin:a");
    fixed.config = number("7");
    reconcile(&mut tree, &mut driver, vec![fixed]).unwrap();
    assert_eq!(driver.take(), ["start:a"]);
}

#[test]
fn violations_name_their_place_and_broken_schemas_are_refused() {
    let mut tree = EntryTree::new();
    tree.register_schema(
        "builtin:a".to_owned(),
        json(r#"{"properties":{"port":{"type":"integer"}}}"#),
    );
    let mut entry = leaf("a", "builtin:a");
    entry.config = json(r#"{"port":"x"}"#);
    match tree.plan(vec![entry.duplicate()]) {
        Err(LoaderError::InvalidConfig {
            entry,
            path,
            message,
        }) => {
            assert_eq!(entry.as_str(), "a");
            assert_eq!(path, "/port");
            assert_eq!(message, "\"x\" is not of type \"integer\"");
        }
        other => panic!("unexpected {other:?}"),
    }
    tree.register_schema("builtin:a".to_owned(), json(r#"{"type":7}"#));
    assert!(matches!(
        tree.plan(vec![entry]),
        Err(LoaderError::InvalidSchema { component, .. }) if component == "builtin:a"
    ));
}

#[test]
fn failed_reconcile_rolls_back_applied_operations_in_reverse() {
    let mut driver = Driver {
        with_config: true,
        ..Driver::default()
    };
    let mut tree = EntryTree::new();
    let a = leaf("a", "builtin:a");
    let b = leaf("b", "builtin:b");
    reconcile(&mut tree, &mut driver, vec![a.duplicate(), b.duplicate()]).unwrap();
    driver.take();

    let mut changed_a = a.duplicate();
    changed_a.config = number("1");
    let c = leaf("c", "builtin:c");
    driver.fail_once = Some("start:c".to_owned());
    assert_eq!(
        reconcile(&mut tree, &mut driver, vec![changed_a, c]),
        Err(LoaderError::Driver("injected start:c".into()))
    );
    assert_eq!(
        driver.take(),
        [
            "stop:b",
            "update:a:1",
            "start:c",
            "update:a:null",
            "start:b"
        ]
    );
    assert_eq!(tree.roots(), &vec![a, b]);
}

#[test]
fn failed_rollbacks_are_reported_with_the_cause() {
    let error = LoaderError::Driver("broken".to_owned());
    assert_eq!(rollback_error(error.clone(), &Vec::new()), error);
    let reported = rollback_error(error, &vec!["one".to_owned(), "two".to_owned()]);
    assert_eq!(
        reported.message(),
        "entry driver failed: entry driver failed: broken; reconciliation rollback failed: one; two"
    );
}

#[test]
fn rollback_goes_on_past_its_own_failures() {
    let mut tree = EntryTree::new();
    let fail = |text: &str| Err(LoaderError::Driver(text.to_owned()));
    let mut step = tree
        .reconcile(vec![
            leaf("a", "builtin:a"),
            leaf("b", "builtin:b"),
            leaf("c", "builtin:c"),
        ])
        .unwrap();
    let mut tried = Vec::new();
    for outcome in [Ok(()), Ok(()), fail("c"), fail("b"), Ok(())] {
        tried.push(match step.next().unwrap() {
            Operation::Start(entry) => format!("start:{}", entry.spec.id.as_str()),
            Operation::Stop(entry) => format!("stop:{}", entry.spec.id.as_str()),
            Operation::Update { next, .. } => format!("update:{}", next.spec.id.as_str()),
        });
        step = step.after(outcome);
    }
    assert_eq!(tried, ["start:a", "start:b", "start:c", "stop:b", "stop:a"]);
    assert!(step.next().is_none());
    assert_eq!(
        tree.conclude(step).unwrap_err().message(),
        "entry driver failed: entry driver failed: c; reconciliation rollback failed: \
         entry driver failed: b"
    );
    assert!(tree.roots().is_empty());
}

#[test]
fn the_two_zeros_are_no_change() {
    let mut tree = EntryTree::new();
    let mut driver = Driver::default();
    let entry = |zero: &str| {
        let mut entry = leaf("a", "builtin:a");
        entry.config = json(&format!("{{\"x\":[{zero},1]}}"));
        entry.intercept.insert("log".to_owned(), json(zero));
        group("g", vec![entry])
    };
    reconcile(&mut tree, &mut driver, vec![entry("0.0")]).unwrap();
    driver.take();
    reconcile(&mut tree, &mut driver, vec![entry("-0.0")]).unwrap();
    assert!(driver.take().is_empty());
    reconcile(&mut tree, &mut driver, vec![entry("0.5")]).unwrap();
    assert_eq!(driver.take(), ["update:a"]);
    reconcile(&mut tree, &mut driver, vec![entry("0")]).unwrap();
    assert_eq!(driver.take(), ["update:a"]);
}

#[test]
fn entries_are_edited_by_id() {
    let mut tree = EntryTree::new();
    let mut driver = Driver::default();
    reconcile(
        &mut tree,
        &mut driver,
        vec![leaf("a", "builtin:a"), group("g", vec![])],
    )
    .unwrap();
    let created = tree.create(Some(&id("g")), leaf("b", "builtin:b")).unwrap();
    assert_eq!(created[1].children[0].id.as_str(), "b");
    assert_eq!(
        tree.create(Some(&id("a")), leaf("b", "builtin:b")),
        Err(LoaderError::ParentNotGroup(id("a")))
    );
    assert_eq!(
        tree.create(Some(&id("x")), leaf("b", "builtin:b")),
        Err(LoaderError::MissingEntry(id("x")))
    );
    let updated = tree.self_update(&id("a"), number("3")).unwrap();
    assert_eq!(updated[0].config, number("3"));
    let disabled = tree.self_disable(&id("a")).unwrap();
    assert!(disabled[0].disabled);
    let removed = tree.remove(&id("a")).unwrap();
    assert_eq!(removed.len(), 1);
    assert_eq!(
        tree.remove(&id("zzz")),
        Err(LoaderError::MissingEntry(id("zzz")))
    );
    assert_eq!(
        tree.update(leaf("a", "builtin:z")).unwrap()[0].component,
        "builtin:z"
    );
    assert_eq!(
        tree.move_entry(&id("g"), Some(&id("g")), 0),
        Err(LoaderError::EntryCycle(id("g")))
    );
}

#[test]
fn trees_refuse_duplicates_and_bad_components() {
    assert_eq!(
        resolve_entries(&vec![leaf("a", "builtin:a"), leaf("a", "builtin:b")]).err(),
        Some(LoaderError::DuplicateEntry(id("a")))
    );
    assert_eq!(
        resolve_entries(&vec![leaf("a", "nowhere")]).err(),
        Some(LoaderError::InvalidComponentRef("nowhere".to_owned()))
    );
    assert_eq!(
        EntryId::new(String::new()),
        Err(LoaderError::InvalidEntryId(String::new()))
    );
    assert_eq!(
        ComponentRef::parse("builtin:log"),
        Ok(ComponentRef::Builtin("log".to_owned()))
    );
    assert_eq!(
        ComponentRef::parse("file:a.wasm"),
        Ok(ComponentRef::File("a.wasm".to_owned()))
    );
    assert!(ComponentRef::parse("builtin:").is_err());
}

fn plain(node: YamlNode) -> TaggedNode {
    TaggedNode { tag: None, node }
}

fn source(text: &str) -> IncludeSource {
    IncludeSource::Json(text.to_owned())
}

fn mapping(members: Vec<(&str, TaggedNode)>) -> TaggedNode {
    plain(YamlNode::Mapping(
        members
            .into_iter()
            .map(|(key, value)| TaggedMember {
                key: key.to_owned(),
                value,
            })
            .collect(),
    ))
}

fn scalar(value: &str) -> TaggedNode {
    plain(YamlNode::Text(value.to_owned()))
}

#[test]
fn yaml_expr_is_evaluated_recursively_in_restricted_scope() {
    let tree = plain(YamlNode::Sequence(vec![mapping(vec![
        ("component", scalar("builtin:test")),
        (
            "config",
            mapping(vec![(
                "port",
                TaggedNode {
                    tag: Some("!expr".to_owned()),
                    node: YamlNode::Text("ctx.port + 1".to_owned()),
                },
            )]),
        ),
        ("id", scalar("app")),
    ])]));
    let document = IncludeDocument::from_source(
        "config.yaml".to_owned(),
        false,
        &IncludeSource::Yaml(tree),
        &vec![],
        &object(vec![("port", number("40"))]),
    )
    .unwrap();
    assert_eq!(document.format, IncludeFormat::Yaml);
    assert_eq!(
        document.entries()[0].config.get(&"port".to_owned()),
        Some(&number("41"))
    );
    assert!(ExprEvaluator::default()
        .evaluate("eval(\"40 + 2\")", &Value::Null)
        .is_err());

    let ordinary = yaml_to_json(
        &mapping(vec![("expr", scalar("literal"))]),
        &ExprEvaluator::default(),
        &Value::Null,
    )
    .unwrap();
    assert_eq!(ordinary, json(r#"{"expr":"literal"}"#));
    let danger = mapping(vec![(
        "value",
        TaggedNode {
            tag: Some("!danger".to_owned()),
            node: YamlNode::Text("nope".to_owned()),
        },
    )]);
    assert_eq!(
        yaml_to_json(&danger, &ExprEvaluator::default(), &Value::Null),
        Err(LoaderError::Include(
            "unsupported YAML tag `!danger`".to_owned()
        ))
    );
}

#[test]
fn expressions_run_within_budgets_and_report_what_failed() {
    let evaluator = ExprEvaluator::default();
    let context = json(r#"{"a":[1,2,3],"s":"x"}"#);
    assert_eq!(evaluator.evaluate("ctx.a[1] * 2", &context), Ok(number("4")));
    assert_eq!(
        evaluator.evaluate("ctx.s + \"y\"", &context),
        Ok(text("xy"))
    );
    let failed = evaluator.evaluate("ctx.a[9]", &context).unwrap_err();
    assert!(failed.message().starts_with("include failed: !expr `ctx.a[9]` failed: "));
    assert_eq!(
        explain("1", Err(ExprFault::NotJson("n".to_owned()))),
        Err(LoaderError::Include("!expr result is not JSON: n".to_owned()))
    );
    assert_eq!(
        explain("1", Err(ExprFault::Context("c".to_owned()))),
        Err(LoaderError::Include("invalid expression context: c".to_owned()))
    );
    let list = TaggedNode {
        tag: Some("!expr".to_owned()),
        node: YamlNode::Null,
    };
    assert_eq!(
        yaml_to_json(&list, &evaluator, &Value::Null),
        Err(LoaderError::Include(
            "!expr value must be a scalar expression".to_owned()
        ))
    );
    assert_eq!(
        yaml_to_json(&plain(YamlNode::Float(None)), &evaluator, &Value::Null),
        Err(LoaderError::Include("non-finite YAML number".to_owned()))
    );
    let numbers = plain(YamlNode::Sequence(vec![
        plain(YamlNode::Integer(-3)),
        plain(YamlNode::Unsigned(u64::MAX)),
        plain(YamlNode::Float(Some("1.5".to_owned()))),
        plain(YamlNode::Null),
        plain(YamlNode::Bool(true)),
    ]));
    assert_eq!(
        yaml_to_json(&numbers, &evaluator, &Value::Null),
        Ok(json("[-3,18446744073709551615,1.5,null,true]"))
    );
}

#[test]
fn expressions_that_sleep_come_back_at_once() {
    let evaluator = ExprEvaluator::default();
    for expression in [
        "sleep(1.0e300)",
        "sleep(1000000)",
        "Fn(\"sl\" + \"eep\").call(1.0e300)",
        "1.0e300.sleep()",
    ] {
        assert_eq!(evaluator.evaluate(expression, &Value::Null), Ok(Value::Null));
    }
    assert!(evaluator.evaluate("[1.0e300].map(\"sleep\")", &Value::Null).is_ok());
    assert!(evaluator.evaluate(&"(".repeat(100_000), &Value::Null).is_err());
}

#[test]
fn sorting_takes_any_number() {
    let evaluator = ExprEvaluator::default();
    let sorted = |expression: &str| {
        evaluator
            .evaluate(&format!("{expression}.to_debug()"), &Value::Null)
            .unwrap()
    };
    let mut numbers = Vec::new();
    for n in 0..16 {
        numbers.push("0.0/0.0".to_owned());
        numbers.push(format!("{}.5", (n * 7) % 16));
    }
    let array = format!("[{}]", numbers.join(","));
    for call in ["order()", "order_desc()"] {
        assert!(evaluator
            .evaluate(&format!("{array}.{call}.len()"), &Value::Null)
            .is_ok_and(|length| length == number("32")));
    }
    assert!(evaluator
        .evaluate(&format!("{array}.sort()"), &Value::Null)
        .is_ok());
    assert!(evaluator
        .evaluate(&format!("{array}.sort_desc()"), &Value::Null)
        .is_ok());
    assert_eq!(sorted("[3, 1, 2].order()"), text("[1, 2, 3]"));
    assert_eq!(sorted("[3, 1, 2].order_desc()"), text("[3, 2, 1]"));
    assert_eq!(
        sorted("[0.5, -1.5, 0.0/0.0, 2.0, -0.0].order()"),
        text("[-1.5, -0.0, 0.5, 2.0, NaN]")
    );
    assert_eq!(sorted("[\"b\", \"a\", \"\"].order()"), text("[\"\", \"a\", \"b\"]"));
    assert_eq!(sorted("[true, false].order()"), text("[false, true]"));
    assert_eq!(sorted("['b', 'a'].order()"), text("[a, b]"));
    assert_eq!(sorted("[(), ()].order()"), text("[(), ()]"));
    assert_eq!(sorted("[[1]].order()"), text("[[1]]"));
    for (expression, reason) in [
        ("[1, 2.0].order()", "elements of different types cannot be sorted"),
        ("[[1], [2]].sort()", "elements of array cannot be sorted"),
    ] {
        let failed = evaluator.evaluate(expression, &Value::Null).unwrap_err();
        assert!(failed.message().contains(reason));
    }
}

#[test]
fn expressions_neither_print_nor_define_functions() {
    let evaluator = ExprEvaluator::default();
    assert_eq!(evaluator.evaluate("print(1)", &Value::Null), Ok(Value::Null));
    assert_eq!(evaluator.evaluate("debug(1)", &Value::Null), Ok(Value::Null));
    let many = Value::Array((0..5000).map(|_| Value::Null).collect());
    let refused = evaluator
        .evaluate("ctx.reduce(|all, one| [all], 0)", &many)
        .unwrap_err();
    assert!(refused.message().starts_with("include failed: !expr `"));
}

#[test]
fn keys_are_sorted_in_a_stable_way() {
    let mut items = vec!["a", "b", "c", "d"];
    let keys = vec![
        SortKey::Float(1.0f64.to_bits()),
        SortKey::Float(0.0f64.to_bits()),
        SortKey::Float(f64::NAN.to_bits()),
        SortKey::Float((-0.0f64).to_bits()),
    ];
    assert_eq!(sort_by_keys(&mut items, keys, false), Ok(()));
    assert_eq!(items, ["b", "d", "a", "c"]);
    let keys = vec![
        SortKey::Int(1),
        SortKey::Int(2),
        SortKey::Int(1),
        SortKey::Int(3),
    ];
    assert_eq!(sort_by_keys(&mut items, keys, true), Ok(()));
    assert_eq!(items, ["c", "d", "b", "a"]);
    assert_eq!(
        sort_by_keys(&mut vec![1, 2], vec![SortKey::Unit, SortKey::Bool(true)], false),
        Err("elements of different types cannot be sorted".to_owned())
    );
}

#[test]
fn references_that_lead_too_deep_are_refused() {
    let chain = |length: usize| {
        let defs: Vec<String> = (0..length)
            .map(|n| format!("\"d{n}\":{{\"$ref\":\"#/$defs/d{}\"}}", n + 1))
            .collect();
        json(&format!(
            "{{\"$ref\":\"#/$defs/d0\",\"$defs\":{{{},\"d{length}\":{{\"type\":\"null\"}}}}}}",
            defs.join(",")
        ))
    };
    assert_eq!(check_config(&chain(500), &Value::Null), Ok(None));
    let violated = check_config(&chain(500), &number("1")).unwrap().unwrap();
    assert_eq!(violated.1, "1 is not of type \"null\"");
    assert_eq!(
        check_config(&chain(20_000), &Value::Null),
        Err("schema references lead too deep".to_owned())
    );
    let list = json(r##"{"items":{"$ref":"#"},"type":"array"}"##);
    assert_eq!(check_config(&list, &json("[[[]],[]]")), Ok(None));
    assert!(check_config(&list, &json("[[[]],[1]]")).is_ok_and(|found| found.is_some()));
    let cycle = json(r##"{"allOf":[{"$ref":"#"}]}"##);
    assert_eq!(check_config(&cycle, &Value::Null), Ok(None));
    let deep = format!("{}{}", "[".repeat(100), "]".repeat(100));
    assert_eq!(check_config(&json("{}"), &json(&deep)), Ok(None));
}

#[test]
fn documents_that_do_not_parse_say_why() {
    let refused = IncludeDocument::from_source(
        "config.json".to_owned(),
        false,
        &source("[1,"),
        &vec![],
        &Value::Null,
    )
    .unwrap_err();
    assert_eq!(
        refused,
        LoaderError::Include("EOF while parsing a value at line 1 column 3".to_owned())
    );
    assert_eq!(
        parse_json(r#"{"b":[1.50,null],"a":"x"}"#),
        Ok(object(vec![
            ("a", text("x")),
            ("b", Value::Array(vec![number("1.5"), Value::Null])),
        ]))
    );
}

#[test]
fn patches_support_merge_group_insert_and_name_mismatch_detection() {
    let child = leaf("child", "builtin:child");
    let patches = vec![
        Patch {
            target: Some(id("app")),
            action: PatchAction::Merge(json(r#"{"config":{"value":2}}"#)),
        },
        Patch {
            target: Some(id("group")),
            action: PatchAction::Insert {
                index: 0,
                entry: child,
            },
        },
    ];
    let document = IncludeDocument::from_source(
        "config.json".to_owned(),
        false,
        &source(r#"[{"id":"app","component":"builtin:app","config":{"value":1}},{"id":"group","group":true}]"#),
        &patches,
        &Value::Null,
    )
    .unwrap();
    assert_eq!(
        document.entries()[0].config.get(&"value".to_owned()),
        Some(&number("2"))
    );
    assert_eq!(document.entries()[1].children[0].id.as_str(), "child");

    let mismatch = Patch {
        target: Some(id("app")),
        action: PatchAction::Merge(json(r#"{"id":"other"}"#)),
    };
    assert!(IncludeDocument::from_source(
        "config.json".to_owned(),
        false,
        &source(r#"[{"id":"app","component":"builtin:app"}]"#),
        &vec![mismatch],
        &Value::Null,
    )
    .is_err());
}

#[test]
fn write_back_is_atomic_and_readonly_is_rejected() {
    let mut document = IncludeDocument::from_source(
        "entries.json".to_owned(),
        false,
        &source(r#"[{"id":"app","component":"builtin:app"}]"#),
        &vec![],
        &Value::Null,
    )
    .unwrap();
    document.entries[0].config = json(r#"{"updated":true}"#);
    let written = document.write_back().unwrap();
    let loaded = IncludeDocument::from_source(
        "entries.json".to_owned(),
        false,
        &source(&written.to_json()),
        &vec![],
        &Value::Null,
    )
    .unwrap();
    assert_eq!(
        loaded.entries()[0].config.get(&"updated".to_owned()),
        Some(&Value::Bool(true))
    );

    let readonly = IncludeDocument::from_source(
        "entries.json".to_owned(),
        true,
        &source(r#"[{"id":"app","component":"builtin:app"}]"#),
        &vec![],
        &Value::Null,
    )
    .unwrap();
    assert!(readonly.readonly());
    assert!(readonly.write_back().is_err());
}

#[test]
fn missing_patch_target_is_an_error() {
    let patch = Patch {
        target: Some(id("missing")),
        action: PatchAction::Remove,
    };
    assert!(matches!(
        IncludeDocument::from_source(
            "config.json".to_owned(),
            false,
            &source("[]"),
            &vec![patch],
            &Value::Null,
        ),
        Err(LoaderError::MissingEntry(_))
    ));
}

#[test]
fn written_entries_read_back_unchanged() {
    let mut child = leaf("child", "file:child.wasm");
    child.config = json(r#"{"b":[1,null],"a":"x"}"#);
    child
        .isolate
        .insert("db".to_owned(), IsolationRule::Global("shared".to_owned()));
    child
        .isolate
        .insert("log".to_owned(), IsolationRule::Local(false));
    child.intercept.insert("log".to_owned(), text("quiet"));
    let mut parent = group("parent", vec![child]);
    parent.disabled = true;
    let entries = vec![parent, leaf("other", "builtin:other")];
    let document = IncludeDocument {
        path: "e.json".to_owned(),
        format: IncludeFormat::Json,
        readonly: false,
        entries: entries.iter().map(|entry| entry.duplicate()).collect(),
    };
    let written = document.write_back().unwrap();
    assert_eq!(decode_entries(&json(&written.to_json())), Ok(entries));
}

#[test]
fn documents_are_lists_or_hold_entries() {
    let listed = decode_entries(&json(r#"{"entries":[{"id":"a"}],"x":1}"#)).unwrap();
    assert_eq!(listed[0].id.as_str(), "a");
    assert_eq!(
        decode_entries(&json("7")),
        Err(LoaderError::Include(
            "include root must be an entry array or contain `entries`".to_owned()
        ))
    );
    assert!(decode_entries(&json(r#"[{"component":"x"}]"#)).is_err());
}

#[test]
fn formats_follow_the_extension() {
    assert_eq!(IncludeFormat::from_path("a/cordis.json"), Ok(IncludeFormat::Json));
    assert_eq!(IncludeFormat::from_path("cordis.yml"), Ok(IncludeFormat::Yaml));
    assert_eq!(IncludeFormat::from_path("cordis.yaml"), Ok(IncludeFormat::Yaml));
    assert!(IncludeFormat::from_path("cordis.toml").is_err());
    assert!(IncludeFormat::from_path("json").is_err());
    for (path, format) in [
        ("a.json/.", IncludeFormat::Json),
        ("a.json/./", IncludeFormat::Json),
        ("./a.yml//.//./", IncludeFormat::Yaml),
        ("..json", IncludeFormat::Json),
        ("a.toml/b.json", IncludeFormat::Json),
    ] {
        assert_eq!(IncludeFormat::from_path(path), Ok(format));
        let expected = std::path::Path::new(path).extension();
        assert!(expected.is_some());
    }
    for path in ["a.JSON", ".json", "a/.json", "a.json/..", "..", "./.", "/.", "a.json.", ""] {
        assert_eq!(
            IncludeFormat::from_path(path),
            Err(LoaderError::Include(format!(
                "unsupported include format for {path}"
            )))
        );
        let found = std::path::Path::new(path).extension();
        assert!(found.is_none_or(|text| text != "json" && text != "yaml" && text != "yml"));
    }
}

#[test]
fn replaced_and_removed_entries_follow_the_patches() {
    let entries = vec![leaf("a", "builtin:a"), leaf("b", "builtin:b")];
    let patches = vec![
        Patch {
            target: Some(id("a")),
            action: PatchAction::Replace(leaf("a", "builtin:c")),
        },
        Patch {
            target: Some(id("b")),
            action: PatchAction::Remove,
        },
        Patch {
            target: None,
            action: PatchAction::Insert {
                index: 0,
                entry: leaf("z", "builtin:z"),
            },
        },
    ];
    let patched = apply_patches(entries, &patches).unwrap();
    assert_eq!(
        patched
            .iter()
            .map(|entry| entry.component.as_str())
            .collect::<Vec<_>>(),
        vec!["builtin:z", "builtin:c"]
    );
}

fn descriptor(name: &str, injects: &[&str], provides: &[&str]) -> DynamicComponentDescriptor {
    DynamicComponentDescriptor {
        name: name.to_owned(),
        version: "0.1.0".to_owned(),
        kernel_abi: "0.1".to_owned(),
        injects: injects
            .iter()
            .map(|name| InjectSpec::required(ServiceId::new((*name).to_owned(), [0; 32])))
            .collect(),
        provides: provides
            .iter()
            .map(|name| ServiceId::new((*name).to_owned(), [0; 32]))
            .collect(),
        config_schema: Value::Bool(true),
        capabilities: TextSet::new(),
    }
}

#[test]
fn registered_builtin_preflights_mounts_and_stops_without_hmr_artifact() {
    let mut builtins = BuiltinRegistry::new();
    builtins
        .register("fixture".to_owned(), descriptor("fixture.builtin", &[], &[]))
        .unwrap();
    assert!(builtins
        .register("fixture".to_owned(), descriptor("fixture.builtin", &[], &[]))
        .is_err());
    let entries = vec![leaf("builtin", "builtin:fixture")];

    let mut report = CheckReport::new();
    let tree = EntryTree::new();
    let plan = tree.plan(entries).unwrap();
    for operation in &plan.operations {
        if let Operation::Start(entry) = operation {
            let Some(ComponentRef::Builtin(name)) = &entry.component else {
                panic!("a built-in was declared");
            };
            let factory = builtins.get(name).unwrap();
            cordis::tree::validate_config(entry, &factory.config_schema).unwrap();
            report.record(factory.name.clone());
        }
    }
    assert_eq!(report.entries, 1);
    assert_eq!(report.components.len(), 1);
    assert!(report.components.contains("fixture.builtin"));
    assert_eq!(report.summary(), "ok: 1 entries, 1 components");
}

#[test]
fn builtins_need_a_free_name() {
    let mut builtins: BuiltinRegistry<u8> = BuiltinRegistry::new();
    assert_eq!(
        builtins.register(String::new(), 1),
        Err(LoaderError::Driver(
            "builtin component name cannot be empty".to_owned()
        ))
    );
    builtins.register("a".to_owned(), 1).unwrap();
    assert_eq!(
        builtins.register("a".to_owned(), 2),
        Err(LoaderError::Driver(
            "builtin component `a` is already registered".to_owned()
        ))
    );
    assert_eq!(builtins.get("a"), Ok(&1));
    assert_eq!(
        builtins.get("b"),
        Err(LoaderError::Driver(
            "builtin component `b` is not registered".to_owned()
        ))
    );
    assert_eq!(
        missing_component(&id("x")),
        LoaderError::Driver("Entry `x` has no component".to_owned())
    );
}

fn resolved(entry: EntrySpec) -> ResolvedEntry {
    let key = entry.id.as_str().to_owned();
    let map = resolve_entries(&vec![entry]).unwrap();
    map.get(&key).unwrap().duplicate()
}

#[test]
fn entries_share_realms_by_label_and_are_apart_otherwise() {
    let services = entry_services(&descriptor("c", &["b", "a"], &["a", "c"]));
    assert_eq!(
        services
            .iter()
            .map(|service| service.name())
            .collect::<Vec<_>>(),
        vec!["a", "b", "c"]
    );
    let mut one = leaf("one", "builtin:c");
    one.isolate
        .insert("a".to_owned(), IsolationRule::Global("shared".to_owned()));
    one.isolate
        .insert("b".to_owned(), IsolationRule::Local(true));
    one.intercept.insert("c".to_owned(), text("layer"));
    let mut two = leaf("two", "builtin:c");
    two.isolate
        .insert("a".to_owned(), IsolationRule::Global("shared".to_owned()));
    two.isolate
        .insert("b".to_owned(), IsolationRule::Local(true));
    let mut supervisor = SupervisorState::new(IdSource::new(), IdSource::new());
    let mut table = RealmTable::new();
    let root = Context::root(FiberId(1));
    let first = entry_context(
        &root,
        &resolved(one),
        &services,
        &mut table,
        &mut supervisor,
    );
    let second = entry_context(
        &root,
        &resolved(two),
        &services,
        &mut table,
        &mut supervisor,
    );
    let realm = |context: &Context, at: usize| context.resolve_realm(&services[at]).unwrap();
    assert_eq!(realm(&first, 0), realm(&second, 0));
    assert_ne!(realm(&first, 1), realm(&second, 1));
    assert_eq!(realm(&first, 2), realm(&second, 2));
    assert_eq!(supervisor.snapshot().allocated_realms, 4);
    assert_eq!(first.intercept_layers(&services[2]), vec![text("layer")]);
    assert!(second.intercept_layers(&services[2]).is_empty());
}

#[test]
fn updates_bring_the_previous_entry_back_when_the_next_does_not_start() {
    let failure = || LoaderError::Driver("next".to_owned());
    let step = DriverStep::StopPrevious.after_update(Ok(()));
    assert_eq!(step, DriverStep::StartNext);
    let step = step.after_update(Err(failure()));
    assert_eq!(step, DriverStep::StartPrevious(failure()));
    assert_eq!(
        DriverStep::StartPrevious(failure()).after_update(Ok(())),
        DriverStep::Done(Err(failure()))
    );
    assert_eq!(
        step.after_update(Err(LoaderError::Driver("previous".to_owned()))),
        DriverStep::Done(Err(LoaderError::Driver(
            "entry driver failed: next; rollback failed: entry driver failed: previous".to_owned()
        )))
    );
    assert_eq!(
        DriverStep::StartNext.after_update(Ok(())),
        DriverStep::Done(Ok(()))
    );
    let stopped = DriverStep::StopPrevious.after_stop(Err(failure()));
    assert_eq!(
        stopped.after_stop(Err(LoaderError::Driver("again".to_owned()))),
        DriverStep::Done(Err(LoaderError::Driver(
            "entry driver failed: next; stop rollback failed: entry driver failed: again"
                .to_owned()
        )))
    );
}

#[test]
fn mounted_entries_are_parents_of_nested_ones() {
    let root = FiberId(1);
    let mut table = MountTable::new();
    let mounted = MountedEntry {
        fiber: FiberId(5),
        hmr_tracked: true,
    };
    let outer = group("outer", vec![leaf("inner", "builtin:c")]);
    let map = resolve_entries(&vec![outer]).unwrap();
    let inner = map.get("inner").unwrap();
    assert_eq!(table.parent_fiber(inner, root), root);
    table.insert(&id("outer"), mounted);
    assert_eq!(table.parent_fiber(inner, root), FiberId(5));
    assert_eq!(table.remove(&id("outer")), Ok(mounted));
    assert_eq!(
        table.remove(&id("outer")),
        Err(LoaderError::Driver("Entry `outer` is not mounted".to_owned()))
    );
    assert!(awaits_activation(Some(FiberState::Failed)));
    assert!(!awaits_activation(Some(FiberState::Pending)));
    assert!(!awaits_activation(None));
}

#[test]
fn shutdown_reports_the_supervisor_first() {
    let error = |text: &str| LoaderError::Driver(text.to_owned());
    assert_eq!(
        shutdown_outcome::<u8>(Err(error("s")), Err(error("c")), Ok(())),
        Err(error("s"))
    );
    assert_eq!(
        shutdown_outcome(Ok(1), Err(error("c")), Err(error("r"))),
        Err(error("c"))
    );
    assert_eq!(shutdown_outcome(Ok(1), Ok(()), Err(error("r"))), Err(error("r")));
    assert_eq!(shutdown_outcome(Ok(1), Ok(()), Ok(())), Ok(1));
}

#[test]
fn failed_starts_are_undone() {
    let broken = || LoaderError::Driver("broken".to_owned());
    let prepared = StartStep::Resolve.after(Ok(StartFact::Watched));
    assert_eq!(prepared, StartStep::Prepare { watched: true });
    let unwatch = prepared.after(Err(broken()));
    assert_eq!(unwatch, StartStep::Unwatch(broken()));
    assert_eq!(
        unwatch.after(Ok(StartFact::Nothing)),
        StartStep::Done(Err(broken()))
    );
    let mount = StartStep::Prepare { watched: false }.after(Ok(StartFact::Nothing));
    assert_eq!(mount, StartStep::Mount { watched: false });
    assert_eq!(mount.after(Err(broken())), StartStep::Done(Err(broken())));
    let inspect = StartStep::Mount { watched: true }.after(Ok(StartFact::Nothing));
    assert_eq!(inspect, StartStep::Inspect);
    let waiting = inspect.after(Ok(StartFact::State(Some(FiberState::Loading))));
    assert_eq!(waiting, StartStep::Await);
    let release = waiting.after(Err(broken()));
    assert_eq!(release, StartStep::Release(broken()));
    let retire = release.after(Err(LoaderError::Driver("again".to_owned())));
    assert_eq!(retire, StartStep::Retire(broken()));
    assert_eq!(
        retire.after(Ok(StartFact::Nothing)),
        StartStep::Done(Err(broken()))
    );
    assert_eq!(
        StartStep::Inspect.after(Ok(StartFact::State(Some(FiberState::Pending)))),
        StartStep::Done(Ok(()))
    );
    assert_eq!(
        StartStep::Await.after(Ok(StartFact::Nothing)),
        StartStep::Done(Ok(()))
    );
    assert_eq!(
        StartStep::Resolve.after(Err(broken())),
        StartStep::Done(Err(broken()))
    );
}

#[test]
fn documents_are_replaced_through_a_temporary_file() {
    assert_eq!(
        temporary_name(Some("cordis.yaml"), 12, "345"),
        ".cordis.yaml.12.345.tmp"
    );
    assert_eq!(temporary_name(None, 1, "0"), ".include.1.0.tmp");
    assert!(is_readonly(0o444));
    assert!(is_readonly(0o555));
    assert!(!is_readonly(0o644));
    assert!(!is_readonly(0o464));
    assert!(!is_readonly(0o446));
}
