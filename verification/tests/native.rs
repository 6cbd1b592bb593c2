use cordis::abi::{
    canonical_service_method, check_component, method_id, result_output, service_abi_hash,
    to_snake_case, ArgumentShape, ComponentFault, ComponentMethodShape, GenericShape, MethodFault,
    MethodShape, OutputShape, Receiver, ServiceMethod,
};
use cordis::context::Context;
use cordis::effect::{child_result, DisposeAction, DisposeReport, Disposer, EffectTree, Inverse};
use cordis::error::CordisError;
use cordis::expansion::{
    expand_component, expand_event, expand_service, meta_string, meta_type, take_injects,
    take_marker, AttributeShape, EventFault, EventTrait, InjectFault, InjectTarget, MetaArgument,
    MetaValue, ServiceFault, ServiceTrait, TraitItem,
};
use cordis::fiber::{FiberState, FiberTransition, TransitionKind};
use cordis::id::{EffectId, FiberId, IdSource};
use cordis::method::{caught, method_label, unload_outcome, CallOutcome, MethodFiber, MethodStep};
use cordis::native::{
    event_mode, require_provider, service_failure_text, transport_failure_text,
    CommittedDependencyResolver, DependencyResolver, DependencySet, EventId, EventMode,
    NativeServiceRegistry, NoDependencies, ServiceClient, ServiceDispatcher, ServiceSpec,
};
use cordis::service::{InjectSpec, ProviderKey, ServiceId, ServiceModel};
use cordis::supervisor::SupervisorState;

fn method(name: &str, arguments: &[&str], ok: &str, error: &str) -> ServiceMethod {
    ServiceMethod {
        name: name.to_owned(),
        arguments: arguments.iter().map(|ty| (*ty).to_owned()).collect(),
        ok: ok.to_owned(),
        error: error.to_owned(),
    }
}

fn shape(arguments: usize) -> MethodShape {
    MethodShape {
        is_async: true,
        has_default: false,
        is_generic: false,
        receiver: Receiver::Shared,
        arguments: vec![
            ArgumentShape {
                simple: true,
                plain: true,
                borrowed: false,
            };
            arguments
        ],
        output: OutputShape::Path {
            last: Some("Result".to_owned()),
            arguments: Some(vec![
                GenericShape::Type("()".to_owned()),
                GenericShape::Type("String".to_owned()),
            ]),
        },
    }
}

fn item(method: ServiceMethod) -> TraitItem {
    let mut shape = shape(method.arguments.len());
    shape.output = OutputShape::Path {
        last: Some("Result".to_owned()),
        arguments: Some(vec![
            GenericShape::Type(method.ok),
            GenericShape::Type(method.error),
        ]),
    };
    TraitItem::Method {
        name: method.name,
        types: method.arguments,
        shape,
    }
}

fn logger_trait() -> ServiceTrait {
    ServiceTrait {
        ident: "Logger".to_owned(),
        is_generic: false,
        items: vec![item(method("log", &["String"], "()", "String"))],
    }
}

fn logger_id() -> ServiceId {
    let plan = expand_service(&logger_trait(), Some("app.logger".to_owned())).unwrap();
    ServiceId::new(plan.name, plan.abi_hash)
}

struct LoggerService;

impl ServiceSpec for LoggerService {
    fn key() -> ServiceModel {
        unreachable!()
    }

    fn service_id() -> ServiceId {
        logger_id()
    }
}

#[derive(Debug, Clone, PartialEq)]
struct Dispatcher(ServiceId);

impl ServiceDispatcher for Dispatcher {
    fn identity(&self) -> ServiceModel {
        unreachable!()
    }

    fn service_id(&self) -> ServiceId {
        self.0.clone()
    }
}

fn target(path: &str) -> InjectTarget {
    InjectTarget {
        is_path: true,
        segments: path.split("::").map(str::to_owned).collect(),
        has_arguments: false,
        field_is_identifier: true,
    }
}

#[test]
fn macros_generate_native_component_metadata_and_adapter() {
    let plan = expand_service(&logger_trait(), Some("app.logger".to_owned())).unwrap();
    assert_eq!(plan.name, "app.logger");
    assert_ne!(plan.abi_hash, [0; 32]);
    assert_eq!(plan.marker, "LoggerService");
    assert_eq!(plan.client, "LoggerClient");
    assert_eq!(plan.client_backend, "__CordisLoggerClientBackend");
    assert_eq!(plan.native_client, "__CordisLoggerNativeClient");
    assert_eq!(plan.native_adapter, "__CordisLoggerNativeClientAdapter");
    assert_eq!(plan.dispatcher, "LoggerDispatcher");
    let one = vec![
        method("first", &["u64"], "String", "String"),
        method("second", &[], "()", "String"),
    ];
    let two = vec![
        method("second", &[], "()", "String"),
        method("first", &["u64"], "String", "String"),
    ];
    assert_eq!(
        service_abi_hash("app.stable-wire", &one),
        service_abi_hash("app.stable-wire", &two)
    );

    let consumer = expand_component(
        "Consumer",
        Some("consumer".to_owned()),
        Some("Config".to_owned()),
        &vec![target("Logger")],
    )
    .unwrap();
    assert_eq!(consumer.name, "consumer");
    assert_eq!(consumer.config, "Config");
    assert_eq!(consumer.deps, "ConsumerDependencies");
    assert_eq!(consumer.injects.len(), 1);
    assert_eq!(consumer.injects[0].marker, "LoggerService");
    assert_eq!(consumer.injects[0].client, "LoggerClient");
    assert_eq!(consumer.injects[0].field, "logger");

    let client =
        ServiceClient::<Dispatcher>::new::<LoggerService>(Dispatcher(logger_id())).unwrap();
    assert_eq!(client.service_id(), &LoggerService::service_id());
    assert!(matches!(
        ServiceClient::<Dispatcher>::new::<LoggerService>(Dispatcher(ServiceId::new(
            "app.logger".to_owned(),
            [0xFF; 32]
        ))),
        Err(CordisError::ServiceIdentityMismatch { .. })
    ));
    assert_eq!(plan.route(plan.method_ids[0]), Ok(0));
    let unknown = plan.method_ids[0].wrapping_add(1);
    assert_eq!(
        plan.route(unknown),
        Err(CordisError::UnknownServiceMethod {
            service: logger_id(),
            method_id: unknown,
        })
    );
}

#[test]
fn wire_interfaces_are_canonical_text() {
    let log = method("log", &["u8", "Vec < u8 >"], "()", "String");
    assert_eq!(
        canonical_service_method(&log),
        "log(u8,Vec < u8 >)->Result<(),String>"
    );
    let digest = blake3::hash(b"app.logger\nlog(u8,Vec < u8 >)->Result<(),String>");
    assert_eq!(
        service_abi_hash("app.logger", &vec![log.clone()]),
        *digest.as_bytes()
    );
    let bytes = digest.as_bytes();
    assert_eq!(
        method_id("app.logger", &log),
        u32::from_le_bytes([bytes[0], bytes[1], bytes[2], bytes[3]])
    );
}

#[test]
fn service_traits_hold_plain_async_methods() {
    let fault = |change: &dyn Fn(&mut MethodShape)| {
        let mut shape = shape(1);
        change(&mut shape);
        let declared = ServiceTrait {
            items: vec![TraitItem::Method {
                name: "log".to_owned(),
                types: vec!["String".to_owned()],
                shape,
            }],
            ..logger_trait()
        };
        expand_service(&declared, None).unwrap_err()
    };
    assert_eq!(
        fault(&|shape| shape.is_async = false),
        ServiceFault::Method(MethodFault::NotAsync)
    );
    assert_eq!(
        fault(&|shape| shape.has_default = true),
        ServiceFault::Method(MethodFault::DefaultBody)
    );
    assert_eq!(
        fault(&|shape| shape.is_generic = true),
        ServiceFault::Method(MethodFault::Generic)
    );
    assert_eq!(
        fault(&|shape| shape.receiver = Receiver::Exclusive),
        ServiceFault::Method(MethodFault::WrongReceiver)
    );
    assert_eq!(
        fault(&|shape| shape.arguments[0].simple = false),
        ServiceFault::Method(MethodFault::ComplexArgument)
    );
    assert_eq!(
        fault(&|shape| shape.arguments[0].plain = false),
        ServiceFault::Method(MethodFault::MutableArgument)
    );
    assert_eq!(
        fault(&|shape| shape.arguments[0].borrowed = true).message(),
        "service arguments must be owned so native and Wasm dispatch use the same ABI"
    );
    assert_eq!(
        fault(&|shape| shape.output = OutputShape::Missing).message(),
        "service method must return `Result<T, E>`"
    );
    let named = |last: &str, arguments: Vec<GenericShape>| OutputShape::Path {
        last: Some(last.to_owned()),
        arguments: Some(arguments),
    };
    let ty = |text: &str| GenericShape::Type(text.to_owned());
    assert_eq!(
        result_output(&named("Result", vec![ty("u8"), ty("String")])),
        Ok(("u8".to_owned(), "String".to_owned()))
    );
    for output in [
        named("Option", vec![ty("u8"), ty("String")]),
        named("Result", vec![ty("u8")]),
        named("Result", vec![ty("u8"), GenericShape::Other]),
        named("Result", vec![ty("u8"), ty("u8"), GenericShape::Other]),
        OutputShape::Path {
            last: None,
            arguments: None,
        },
        OutputShape::Other,
    ] {
        assert_eq!(result_output(&output), Err(MethodFault::NotResult));
    }
}

#[test]
fn service_traits_are_refused_as_a_whole() {
    let with = |items: Vec<TraitItem>, is_generic: bool| {
        expand_service(
            &ServiceTrait {
                ident: "Logger".to_owned(),
                is_generic,
                items,
            },
            None,
        )
    };
    assert_eq!(with(vec![], true), Err(ServiceFault::Generic));
    assert_eq!(with(vec![], false), Err(ServiceFault::Empty));
    assert_eq!(with(vec![TraitItem::Other], false), Err(ServiceFault::NotMethod));
    let log = || item(method("log", &[], "()", "()"));
    let collision = with(vec![log(), log()], false).unwrap_err();
    assert_eq!(
        collision.message(),
        "service method id collision between `log` and `log`"
    );
    assert_eq!(with(vec![log()], false).unwrap().name, "Logger");
}

#[test]
fn component_macro_diagnostics() {
    let apply = ComponentMethodShape {
        applies: true,
        injects: false,
        is_async: true,
        receiver: Receiver::Exclusive,
        inputs: 3,
    };
    assert_eq!(check_component(false, &vec![apply]), Ok(0));
    let of_trait = check_component(true, &vec![apply]).unwrap_err();
    assert_eq!(of_trait, ComponentFault::NotInherent);
    assert_eq!(
        of_trait.message(),
        "component_impl must be used on an inherent impl"
    );
    assert_eq!(
        check_component(false, &vec![ComponentMethodShape {
            injects: true,
            ..apply
        }]),
        Err(ComponentFault::ApplyAndInject)
    );
    assert_eq!(
        check_component(false, &vec![ComponentMethodShape {
            receiver: Receiver::Owned,
            ..apply
        }]),
        Err(ComponentFault::ApplySignature)
    );
    assert_eq!(
        check_component(false, &vec![ComponentMethodShape {
            is_async: false,
            receiver: Receiver::Owned,
            ..apply
        }]),
        Err(ComponentFault::ApplyNotAsync)
    );
    assert_eq!(
        check_component(false, &vec![ComponentMethodShape {
            applies: false,
            ..apply
        }]),
        Err(ComponentFault::MissingApply)
    );
    assert_eq!(check_component(false, &vec![apply, apply]), Err(ComponentFault::SecondApply));
    assert_eq!(
        check_component(false, &vec![
            apply,
            ComponentMethodShape {
                applies: false,
                injects: true,
                is_async: false,
                receiver: Receiver::Exclusive,
                inputs: 2,
            }
        ]),
        Err(ComponentFault::InjectNotAsync)
    );
    assert_eq!(
        ComponentFault::MissingApply.message(),
        "component_impl requires one #[cordis::apply] method"
    );

    assert_eq!(
        expand_component("C", None, None, &vec![target("Clock"), target("Clock")]),
        Err(InjectFault::DuplicateField)
    );
    let event = EventTrait {
        ident: "InvalidMode".to_owned(),
        tokens: String::new(),
        input: Some("String".to_owned()),
        output: Some("String".to_owned()),
    };
    assert_eq!(
        expand_event(&event, None, Some("broadcast")),
        Err(EventFault::UnknownMode)
    );
    let mismatched = EventTrait {
        output: Some("u64".to_owned()),
        ..event.clone()
    };
    assert_eq!(
        expand_event(&mismatched, None, Some("waterfall")),
        Err(EventFault::WaterfallTypes)
    );
    let untyped = EventTrait {
        input: None,
        ..event
    };
    assert_eq!(
        expand_event(&untyped, None, None).unwrap_err().message(),
        "event trait must declare `type Input = ...;` and `type Output = ...;`"
    );
}

#[test]
fn injected_services_are_paths_with_distinct_fields() {
    let plan = expand_component("C", None, None, &vec![target("app::HTTPGateway")]).unwrap();
    assert_eq!(plan.name, "C");
    assert_eq!(plan.config, "()");
    assert_eq!(plan.injects[0].marker, "app::HTTPGatewayService");
    assert_eq!(plan.injects[0].client, "app::HTTPGatewayClient");
    assert_eq!(plan.injects[0].field, "http_gateway");
    let with = |change: &dyn Fn(&mut InjectTarget)| {
        let mut changed = target("Clock");
        change(&mut changed);
        expand_component("C", None, None, &vec![changed]).unwrap_err()
    };
    assert_eq!(with(&|t| t.is_path = false), InjectFault::NotPath);
    assert_eq!(with(&|t| t.segments.clear()), InjectFault::EmptyPath);
    assert_eq!(with(&|t| t.has_arguments = true), InjectFault::GenericPath);
    assert_eq!(with(&|t| t.field_is_identifier = false), InjectFault::FieldName);
    assert_eq!(
        InjectFault::DuplicateField.message(),
        "injected services must have distinct client field names"
    );
}

#[test]
fn declaration_arguments_are_read_by_name() {
    let meta = |name: &str, value: MetaValue| MetaArgument {
        name: Some(name.to_owned()),
        value,
    };
    let text = MetaValue::Given {
        spelling: "\"consumer\"".to_owned(),
        text: Some("consumer".to_owned()),
    };
    let config = MetaValue::Given {
        spelling: "Config".to_owned(),
        text: None,
    };
    let metas = vec![
        meta("name", text),
        meta("config", config),
        meta("name", MetaValue::Missing),
    ];
    assert_eq!(meta_string(&metas, "name"), Ok(Some("consumer".to_owned())));
    assert_eq!(meta_string(&metas, "mode"), Ok(None));
    assert_eq!(
        meta_string(&metas, "config"),
        Err("`config` must be a string".to_owned())
    );
    assert_eq!(meta_type(&metas, "config"), Ok(Some("Config".to_owned())));
    assert_eq!(
        meta_type(&metas, "name"),
        Ok(Some("\"consumer\"".to_owned()))
    );
    assert_eq!(
        meta_type(&vec![meta("config", MetaValue::Missing)], "config"),
        Err("`config` must name a type".to_owned())
    );
}

#[test]
fn attributes_give_up_markers_and_injected_services() {
    let attribute = |last: &str, injects: Vec<InjectTarget>| AttributeShape {
        last: Some(last.to_owned()),
        injects,
    };
    let attributes = vec![
        attribute("apply", vec![]),
        attribute("inject", vec![target("Clock"), target("Logger")]),
        attribute("allow", vec![]),
        attribute("cordis_inject", vec![target("Timer")]),
    ];
    let (found, rest) = take_marker(attributes, "apply");
    assert!(found);
    let (again, rest) = take_marker(rest, "apply");
    assert!(!again);
    let (targets, rest) = take_injects(rest);
    assert_eq!(targets, vec![target("Clock"), target("Logger"), target("Timer")]);
    assert_eq!(rest, vec![attribute("allow", vec![])]);
}

#[test]
fn field_names_are_snake_case() {
    assert_eq!(to_snake_case("Logger"), "logger");
    assert_eq!(to_snake_case("HTTPServer"), "http_server");
    assert_eq!(to_snake_case("KeyValueStore"), "key_value_store");
    assert_eq!(to_snake_case("V2Api"), "v2_api");
    assert_eq!(to_snake_case("\u{c9}t\u{e9}"), "\u{e9}t\u{e9}");
}

#[test]
fn event_macro_generates_codec_and_all_dispatch_modes() {
    let declared = |ident: &str| EventTrait {
        ident: ident.to_owned(),
        tokens: format!("trait {ident} {{ }}"),
        input: Some("String".to_owned()),
        output: Some("String".to_owned()),
    };
    let before = expand_event(
        &declared("BeforeRun"),
        Some("app.before-run".to_owned()),
        None,
    )
    .unwrap();
    assert_eq!(before.name, "app.before-run");
    assert_eq!(before.mode, EventMode::Parallel);
    assert_eq!(before.marker, "BeforeRunEvent");
    assert_eq!(
        before.abi_hash,
        *blake3::hash(b"app.before-run\ntrait BeforeRun { }").as_bytes()
    );
    assert_eq!(
        EventId::new(before.name, before.abi_hash).name(),
        "app.before-run"
    );
    assert_eq!(event_mode(Some("emit")), Some(EventMode::Emit));
    assert_eq!(event_mode(Some("serial")), Some(EventMode::Serial));
    assert_eq!(event_mode(Some("bail")), Some(EventMode::Bail));
    assert_eq!(
        expand_event(&declared("Rewrite"), None, Some("waterfall"))
            .unwrap()
            .mode,
        EventMode::Waterfall
    );
}

#[test]
fn dispatchers_are_found_by_provider_and_service() {
    let mut services = NativeServiceRegistry::new();
    assert!(services.is_empty());
    services.insert(FiberId(1), Dispatcher(logger_id()));
    services.insert(FiberId(2), Dispatcher(logger_id()));
    services.insert(FiberId(1), Dispatcher(logger_id()));
    assert_eq!(services.len(), 2);
    assert_eq!(
        services.resolve(FiberId(2), &logger_id()),
        Ok(&Dispatcher(logger_id()))
    );
    services.remove(FiberId(2), &logger_id());
    assert_eq!(
        services.resolve(FiberId(2), &logger_id()),
        Err(CordisError::MissingServiceDispatcher {
            provider: FiberId(2),
            service: logger_id(),
        })
    );
    assert!(NoDependencies::injects().is_empty());
    assert_eq!(service_failure_text("x"), "service call failed: x");
    assert_eq!(transport_failure_text("x"), "service transport failed: x");
}

/// A component whose method runs as a fiber below it.
struct World {
    supervisor: SupervisorState,
    effects: EffectTree<FiberId>,
    root: EffectId,
    ids: IdSource,
    services: NativeServiceRegistry<Dispatcher>,
    timer: ServiceId,
    method: MethodFiber<u32>,
    child: Option<FiberId>,
    state: usize,
    observed: Vec<usize>,
    calls: Vec<FiberId>,
    disposals: usize,
}

impl World {
    fn new() -> World {
        let mut ids = IdSource::new();
        let effects = EffectTree::new(&mut ids, "method-consumer".to_owned());
        let root = effects.nodes[0].id;
        World {
            supervisor: SupervisorState::new(IdSource::new(), IdSource::new()),
            effects,
            root,
            ids,
            services: NativeServiceRegistry::new(),
            timer: ServiceId::new("app.timer".to_owned(), [1; 32]),
            method: MethodFiber::new(),
            child: None,
            state: 0,
            observed: Vec::new(),
            calls: Vec::new(),
            disposals: 0,
        }
    }

    fn fiber(&mut self, context: impl Fn(FiberId) -> Context) -> (FiberId, FiberTransition) {
        let fiber = self.supervisor.create_fiber(None, false).unwrap();
        let change = self
            .supervisor
            .configure_dependencies(fiber, context(fiber), Vec::new())
            .unwrap();
        (fiber, change.transitions[0].clone())
    }

    fn complete(&mut self, fiber: FiberId, load: &FiberTransition, result: Result<(), CordisError>) {
        let ready = self
            .supervisor
            .complete_transition(fiber, load.generation, result)
            .unwrap()
            .ready;
        self.dispatch(ready);
    }

    fn dispatch(&mut self, transitions: Vec<FiberTransition>) {
        for transition in transitions {
            if Some(transition.fiber) != self.child {
                continue;
            }
            let result = match transition.kind {
                TransitionKind::Load { .. } => self.load(transition.fiber),
                TransitionKind::Unload => {
                    if self.method.unload().is_some() {
                        self.disposals += 1;
                    }
                    unload_outcome(Ok(()))
                }
            };
            let result = caught(transition.fiber, CallOutcome::Returned(result));
            let ready = self
                .supervisor
                .complete_transition(transition.fiber, transition.generation, result)
                .unwrap()
                .ready;
            self.dispatch(ready);
        }
    }

    fn load(&mut self, fiber: FiberId) -> Result<(), CordisError> {
        let committed = self.supervisor.commit_dependencies(fiber)?;
        let resolver = CommittedDependencyResolver {
            committed: &committed,
            services: &self.services,
        };
        resolver.resolve(&self.timer)?;
        self.calls.push(require_provider(&committed, &self.timer)?);
        self.state += 1;
        self.observed.push(self.state);
        assert!(self.method.loaded(1, Ok(())).is_ok());
        Ok(())
    }

    fn register(&mut self, context: &Context) -> Result<FiberId, CordisError> {
        let parent = context.fiber();
        let mut step = MethodStep::start(true);
        let mut effect = self.root;
        loop {
            step = match step {
                MethodStep::OpenEffect => {
                    let opened =
                        self.effects
                            .child(&mut self.ids, self.root, method_label("bind_timer"));
                    MethodStep::OpenEffect.after(opened.map(|id| {
                        effect = id;
                        parent
                    }))
                }
                MethodStep::CreateChild => {
                    let created = self.supervisor.create_fiber(Some(parent), true);
                    MethodStep::CreateChild.after(created)
                }
                MethodStep::Install(child) => {
                    self.child = Some(child);
                    MethodStep::Install(child).after(Ok(child))
                }
                MethodStep::Own(child) => {
                    let owned = self.effects.defer(effect, Disposer::new(child));
                    MethodStep::Own(child).after(owned.map(|_| child))
                }
                MethodStep::Configure(child) => {
                    let configured = self
                        .supervisor
                        .configure_dependencies(
                            child,
                            context.extend(child),
                            vec![InjectSpec::required(self.timer.clone())],
                        )
                        .map(|change| {
                            assert!(change.transitions.is_empty());
                            child
                        });
                    MethodStep::Configure(child).after(configured)
                }
                MethodStep::Undo(child, error) => {
                    self.child = None;
                    MethodStep::Undo(child, error).after(Ok(child))
                }
                MethodStep::Done(child) => return Ok(child),
                MethodStep::Failed(error) => return Err(error),
            };
        }
    }

    fn state_of(&self, fiber: FiberId) -> FiberState {
        self.supervisor.snapshot().fiber(fiber).unwrap().state
    }

    fn dispose(&mut self, effect: EffectId) -> DisposeReport {
        match self.effects.dispose(effect) {
            DisposeAction::Complete(report) => return report,
            DisposeAction::Wait => panic!("nobody else disposes"),
            DisposeAction::Run => {}
        }
        while let Some(inverse) = self.effects.next_inverse(effect) {
            let result = match inverse {
                Inverse::Child(child) => child_result(child, self.dispose(child)),
                Inverse::Step(disposer) => {
                    let fiber = disposer.run();
                    let ready = self.supervisor.retire_fiber(fiber).unwrap();
                    self.dispatch(ready);
                    assert_eq!(self.state_of(fiber), FiberState::Disposed);
                    Ok(())
                }
            };
            self.effects.record_result(effect, result);
        }
        self.effects.finish(effect)
    }
}

#[test]
fn method_inject_runs_in_effect_owned_child_fiber() {
    let mut world = World::new();
    let realm = world.supervisor.allocate_realm();
    let timer = world.timer.clone();
    let key = ProviderKey::new(timer.clone(), realm);
    let (parent, load) = world.fiber(|fiber| Context::root(fiber).isolate(timer.clone(), realm));
    let context = Context::root(parent).isolate(timer.clone(), realm);
    let child = world.register(&context).unwrap();
    world.state = 40;
    world.complete(parent, &load, Ok(()));
    assert_eq!(
        world.supervisor.snapshot().fiber(child).unwrap().parent,
        Some(parent)
    );
    assert_eq!(world.state_of(child), FiberState::Pending);
    assert!(world.calls.is_empty());

    let (first, load) = world.fiber(Context::root);
    world.complete(first, &load, Ok(()));
    world.services.insert(first, Dispatcher(timer.clone()));
    let ready = world.supervisor.provide(key.clone(), first).unwrap().transitions;
    world.dispatch(ready);
    assert_eq!(world.state_of(child), FiberState::Active);
    assert_eq!(world.calls, vec![first]);
    assert_eq!(world.observed, vec![41]);

    let ready = world.supervisor.withdraw(key.clone(), first).unwrap().transitions;
    world.dispatch(ready);
    assert_eq!(world.state_of(child), FiberState::Pending);
    assert_eq!(world.disposals, 1);

    let (second, load) = world.fiber(Context::root);
    world.complete(second, &load, Ok(()));
    world.services.insert(second, Dispatcher(timer.clone()));
    let ready = world.supervisor.provide(key, second).unwrap().transitions;
    world.dispatch(ready);
    assert_eq!(world.state_of(child), FiberState::Active);
    assert_eq!(world.calls, vec![first, second]);
    assert_eq!(world.observed, vec![41, 42]);

    let root = world.root;
    world.dispose(root).unwrap();
    assert_eq!(world.state_of(child), FiberState::Disposed);
    assert_eq!(world.disposals, 2);
}

#[test]
fn failed_parent_apply_retires_registered_method_fibers() {
    let mut world = World::new();
    let realm = world.supervisor.allocate_realm();
    let timer = world.timer.clone();
    let (parent, load) = world.fiber(|fiber| Context::root(fiber).isolate(timer.clone(), realm));
    let context = Context::root(parent).isolate(timer, realm);
    let child = world.register(&context).unwrap();
    let error = CordisError::SupervisorFailed {
        message: "expected apply failure".to_owned(),
    };
    let root = world.root;
    world.dispose(root).unwrap();
    assert_eq!(world.state_of(child), FiberState::Disposed);
    world.complete(parent, &load, Err(error));
}

#[test]
fn methods_need_a_runtime_and_a_live_parent() {
    assert_eq!(
        MethodStep::start(false),
        MethodStep::Failed(CordisError::MissingMethodRuntime)
    );
    let mut world = World::new();
    let parent = world.supervisor.create_fiber(None, false).unwrap();
    assert_eq!(
        world.register(&Context::root(parent)),
        Err(CordisError::InactiveFiber { fiber: parent })
    );
    let (active, _) = world.fiber(Context::root);
    assert_eq!(
        world.register(&Context::root(active)),
        Err(CordisError::MissingRealm {
            service: world.timer.clone()
        })
    );
    assert!(world.child.is_none());
}

#[test]
fn panics_fail_the_fiber_that_ran_the_code() {
    assert_eq!(
        caught::<()>(FiberId(3), CallOutcome::Panicked(Some("boom".to_owned()))),
        Err(CordisError::FiberExecutorPanicked {
            fiber: FiberId(3),
            message: "boom".to_owned(),
        })
    );
    assert_eq!(caught(FiberId(3), CallOutcome::Returned(Ok(7))), Ok(7));
    assert_eq!(
        unload_outcome(Err("1 disposer(s) failed".to_owned())),
        Err(CordisError::DisposerFailed {
            message: "1 disposer(s) failed".to_owned()
        })
    );
    let mut fiber: MethodFiber<u8> = MethodFiber::new();
    assert_eq!(
        fiber.loaded(1, Err(CordisError::RuntimeClosed)),
        Err((1, CordisError::RuntimeClosed))
    );
    assert!(fiber.unload().is_none());
}
