use cordis::context::Context;
use cordis::error::CordisError;
use cordis::id::{FiberId, IdSource, RealmId};
use cordis::service::{ProviderKey, ServiceId};
use cordis::value::{deep_merge, Member, Value};

fn service(name: &str) -> ServiceId {
    ServiceId::new(name.to_owned(), [0; 32])
}

fn text(value: &str) -> Value {
    Value::Text(value.to_owned())
}

fn object(members: Vec<(&str, Value)>) -> Value {
    Value::Object(
        members
            .into_iter()
            .map(|(key, value)| Member {
                key: key.to_owned(),
                value,
            })
            .collect(),
    )
}

#[test]
fn overlays_resolve_nearest_realm_without_mutating_parent() {
    let mut ids = IdSource::new();
    let mut realms = IdSource::new();
    let database = service("database");
    let root_realm = RealmId::next(&mut realms);
    let local_realm = RealmId::next(&mut realms);
    let root = Context::root(FiberId::next(&mut ids)).isolate(database.clone(), root_realm);
    let local = root.isolate(database.clone(), local_realm);

    assert_eq!(root.resolve_realm(&database), Ok(root_realm));
    assert_eq!(local.resolve_realm(&database), Ok(local_realm));
}

#[test]
fn extend_changes_owner_and_inherits_overlays() {
    let mut ids = IdSource::new();
    let mut realms = IdSource::new();
    let database = service("database");
    let realm = RealmId::next(&mut realms);
    let parent_fiber = FiberId::next(&mut ids);
    let child_fiber = FiberId::next(&mut ids);
    let parent = Context::root(parent_fiber).isolate(database.clone(), realm);
    let child = parent.extend(child_fiber);

    assert_eq!(parent.fiber(), parent_fiber);
    assert_eq!(child.fiber(), child_fiber);
    assert_eq!(child.resolve_realm(&database), Ok(realm));
}

#[test]
fn intercept_layers_are_returned_outermost_first() {
    let mut ids = IdSource::new();
    let logger = service("logger");
    let root = Context::root(FiberId::next(&mut ids))
        .intercept(logger.clone(), object(vec![("level", text("info"))]));
    let child = root
        .extend(FiberId::next(&mut ids))
        .intercept(logger.clone(), object(vec![("target", text("db"))]));

    let layers = child.intercept_layers(&logger);
    assert_eq!(layers.len(), 2);
    assert_eq!(layers[0].get(&"level".to_owned()), Some(&text("info")));
    assert_eq!(layers[1].get(&"target".to_owned()), Some(&text("db")));
    assert!(root.intercept_layers(&service("other")).is_empty());
}

#[test]
fn missing_realm_names_the_service() {
    let mut ids = IdSource::new();
    let database = service("database");
    let context = Context::root(FiberId::next(&mut ids));
    assert_eq!(
        context.resolve_realm(&database),
        Err(CordisError::MissingRealm { service: database })
    );
}

#[test]
fn services_and_slots_print_name_fingerprint_and_realm() {
    let mut hash = [0u8; 32];
    hash[0] = 0x0a;
    hash[1] = 0xbc;
    hash[3] = 0xff;
    let id = ServiceId::new("app.db".to_owned(), hash);
    assert_eq!(id.text(), "app.db@0abc00ff");
    assert_eq!(ProviderKey::new(id, RealmId(7)).text(), "app.db@0abc00ff#7");
}

#[test]
fn services_are_ordered_by_name_and_fingerprint() {
    let a = ServiceId::new("a".to_owned(), [2; 32]);
    let b = ServiceId::new("b".to_owned(), [1; 32]);
    let c = ServiceId::new("a".to_owned(), [3; 32]);
    assert!(a.before(&b));
    assert!(!b.before(&a));
    assert!(a.before(&c));
    assert!(!a.before(&a));
    assert_eq!(a.before(&c), a < c);
}

#[test]
fn merging_overrides_leaves_and_descends_into_objects() {
    let mut base = object(vec![
        ("a", object(vec![("x", Value::Number("1".to_owned()))])),
        ("b", Value::Array(vec![Value::Null])),
    ]);
    let patch = object(vec![
        ("a", object(vec![("y", Value::Bool(true))])),
        ("b", text("z")),
    ]);
    deep_merge(&mut base, &patch);
    assert_eq!(base.to_json(), r#"{"a":{"x":1,"y":true},"b":"z"}"#);
}

#[test]
fn json_text_escapes_what_has_to_be_escaped() {
    let value = object(vec![("k\"", text("a\\b\n\u{1}\u{e9}"))]);
    assert_eq!(value.to_json(), "{\"k\\\"\":\"a\\\\b\\n\\u0001\u{e9}\"}");
    assert!(value.same(&value.duplicate()));
    let again: serde_json::Value = serde_json::from_str(&value.to_json()).unwrap();
    assert_eq!(again["k\""], "a\\b\n\u{1}\u{e9}");
}
