use cordis::capability::{validate_guest_path, Capability, WasiCapabilities, WasiPreopen};
use cordis::dynamic::{DynamicComponentDescriptor, EventReply, RegistrationRequest};
use cordis::error::CordisError;
use cordis::fiber::FiberState;
use cordis::id::{EffectId, FiberId, RealmId};
use cordis::kernel::{
    component_panic, deactivation_outcome, descriptor_from_wit, descriptor_with_schema,
    event_from_wit, event_to_wit,
    from_kernel_error, require_active, route_step, service_from_wit, service_to_wit,
    to_kernel_error, validate_payload_limit, wasm_error, withdraw_outcome, GuestState,
    KernelError, ListenerRoutes, RouteStep, StoreState, WireDescriptor, WireId,
};
use cordis::native::{EventId, EventMode};
use cordis::order::TextSet;
use cordis::policy::{
    capability_for_wasi_import, validate_descriptor, validate_wasi_imports, ArtifactPolicy,
    WasmLimits,
};
use cordis::service::{ProviderKey, Requirement, ServiceId};
use cordis::value::Value;
use cordis::wasm_error::WasmHostError;

fn descriptor(kernel_abi: &str, capabilities: &[&str]) -> DynamicComponentDescriptor {
    let mut requested = TextSet::new();
    for capability in capabilities {
        requested.insert(Capability::new((*capability).to_owned()).as_str().to_owned());
    }
    DynamicComponentDescriptor {
        name: "guest".into(),
        version: "0.1.0".into(),
        kernel_abi: kernel_abi.into(),
        injects: Vec::new(),
        provides: Vec::new(),
        config_schema: Value::Bool(true),
        capabilities: requested,
    }
}

#[test]
fn default_wasi_policy_has_no_preopens() {
    let policy = WasiCapabilities::deny_all();
    assert!(policy.preopens().is_empty());
}

#[test]
fn guest_preopen_rejects_parent_traversal() {
    let policy = WasiCapabilities::deny_all()
        .with_preopen(WasiPreopen::read_only(".".to_owned(), "../escape".to_owned()));
    assert!(matches!(
        validate_guest_path(&policy.preopens()[0].guest_path),
        Err(WasmHostError::Capability { .. })
    ));
}

#[test]
fn guest_paths_are_relative_and_stay_inside() {
    assert!(validate_guest_path("data/logs").is_ok());
    assert!(validate_guest_path("a..b/c").is_ok());
    assert!(validate_guest_path("/data").is_err());
    assert!(validate_guest_path("data/../x").is_err());
    let writable = WasiPreopen::read_write("h".to_owned(), "g".to_owned());
    assert!(writable.writable);
    assert_eq!(
        validate_guest_path("/x").unwrap_err().message(),
        "invalid WASI capability: guest preopen path must be relative and cannot contain `..`: /x"
    );
}

#[test]
fn capability_policy_rejects_unlisted_request() {
    assert!(matches!(
        validate_descriptor(&descriptor("0.1", &["fs:read"]), &ArtifactPolicy::default()),
        Err(WasmHostError::CapabilityDenied { .. })
    ));
}

#[test]
fn kernel_abi_and_payload_limits_are_rejected_before_routing() {
    assert!(matches!(
        validate_descriptor(&descriptor("1.0", &[]), &ArtifactPolicy::default()),
        Err(WasmHostError::KernelAbiMismatch { .. })
    ));
    assert_eq!(
        validate_payload_limit(&[0; 5], 4),
        Err(CordisError::PayloadLimitExceeded {
            actual: 5,
            limit: 4
        })
    );
    assert_eq!(validate_payload_limit(&[0; 4], 4), Ok(()));
}

#[test]
fn sensitive_wasi_imports_require_explicit_capabilities() {
    assert_eq!(
        capability_for_wasi_import("wasi:filesystem/types@0.2.9"),
        Some("filesystem")
    );
    assert_eq!(
        capability_for_wasi_import("wasi:sockets/tcp@0.2.9"),
        Some("network")
    );
    assert_eq!(
        capability_for_wasi_import("wasi:random/random@0.2.9"),
        Some("random")
    );
    assert_eq!(
        capability_for_wasi_import("wasi:clocks/wall-clock@0.2.9"),
        Some("clock:wall")
    );
    assert_eq!(
        capability_for_wasi_import("wasi:clocks/monotonic-clock@0.2.9"),
        None
    );
    assert_eq!(capability_for_wasi_import("cordis:kernel/host@0.1.0"), None);
}

#[test]
fn imports_need_declared_and_allowed_capabilities() {
    let imports = vec!["wasi:io/streams@0.2.9".to_owned(), "wasi:random/random@0.2.9".to_owned()];
    let mut policy = ArtifactPolicy::default();
    assert_eq!(
        validate_wasi_imports(&imports, &descriptor("0.1", &[]), &policy),
        Err(WasmHostError::Descriptor {
            message:
                "WASI import `wasi:random/random@0.2.9` requires undeclared capability `random`"
                    .to_owned()
        })
    );
    assert_eq!(
        validate_wasi_imports(&imports, &descriptor("0.1", &["random"]), &policy),
        Err(WasmHostError::CapabilityDenied {
            capability: "random".to_owned()
        })
    );
    policy.allowed_capabilities.insert("random".to_owned());
    assert_eq!(
        validate_wasi_imports(&imports, &descriptor("0.1", &["random"]), &policy),
        Ok(())
    );
}

#[test]
fn registration_budget_rejects_excess_and_underflow() {
    let limits = WasmLimits {
        max_registrations: 1,
        ..WasmLimits::default()
    };
    let mut store = StoreState::new((), &limits);

    store.reserve_registration().unwrap();
    assert!(matches!(
        store.reserve_registration(),
        Err(WasmHostError::RegistrationLimitExceeded { limit: 1 })
    ));
    store.release_registration().unwrap();
    assert!(matches!(
        store.release_registration(),
        Err(WasmHostError::RegistrationCountUnderflow)
    ));
    assert_eq!(store.active_registrations(), 0);
}

fn guest() -> GuestState<&'static str> {
    GuestState::new(Some((FiberId(3), EffectId(4))), 4, 2)
}

fn wire(name: &str, length: usize) -> WireId {
    WireId {
        name: name.to_owned(),
        abi_hash: vec![7; length],
    }
}

#[test]
fn guest_calls_are_checked_for_context_payload_and_service() {
    let state = guest();
    let call = state
        .service_call(3, 4, wire("db", 32), 9, vec![1, 2])
        .unwrap();
    assert_eq!(call.service, ServiceId::new("db".to_owned(), [7; 32]));
    assert_eq!((call.method, call.payload), (9, vec![1, 2]));
    assert_eq!(
        state.service_call(3, 5, wire("db", 32), 9, vec![0; 9]),
        Err(KernelError::InvalidArgument(
            "call context does not belong to this Store".to_owned()
        ))
    );
    assert_eq!(
        state.service_call(3, 4, wire("db", 3), 9, vec![0; 9]),
        Err(KernelError::InvalidArgument(
            "payload is 9 bytes, limit is 4 bytes".to_owned()
        ))
    );
    assert_eq!(
        state.service_call(3, 4, wire("db", 3), 9, vec![]),
        Err(KernelError::InvalidArgument(
            "invalid component descriptor: service ABI hash must contain 32 bytes".to_owned()
        ))
    );
    let orphan: GuestState<u8> = GuestState::new(None, 4, 2);
    assert_eq!(
        orphan.service_call(3, 4, wire("db", 32), 9, vec![]),
        Err(KernelError::InactiveContext)
    );
}

#[test]
fn guest_events_and_registrations_are_checked() {
    let state = guest();
    let call = state
        .event_call(3, 4, wire("e", 32), 1, EventMode::Bail, vec![1], Some(2))
        .unwrap();
    assert_eq!(call.event, EventId::new("e".to_owned(), [7; 32]));
    assert_eq!(call.mode, EventMode::Bail);
    assert_eq!(call.next_token, Some(2));
    assert_eq!(
        state.event_call(3, 4, wire("e", 31), 1, EventMode::Bail, vec![], None),
        Err(KernelError::InvalidArgument(
            "event ABI hash must contain 32 bytes".to_owned()
        ))
    );
    assert_eq!(
        state.provide_request(3, 4, wire("db", 32)),
        Ok(RegistrationRequest::Provide(ServiceId::new(
            "db".to_owned(),
            [7; 32]
        )))
    );
    assert!(matches!(
        state.listen_request(3, 4, wire("e", 32), 5, EventMode::Emit),
        Ok(RegistrationRequest::Listen { listener_id: 5, mode: EventMode::Emit, .. })
    ));
    assert_eq!(
        state.event_reply(Ok(EventReply::Continue(vec![0; 5]))),
        Err(KernelError::InvalidArgument(
            "payload is 5 bytes, limit is 4 bytes".to_owned()
        ))
    );
    assert_eq!(state.service_reply(Ok(vec![1])), Ok(vec![1]));
    assert_eq!(
        state.service_reply(Err(CordisError::RuntimeClosed)),
        Err(KernelError::Internal(CordisError::RuntimeClosed.message()))
    );
}

#[test]
fn registrations_are_bounded_and_never_reuse_handles() {
    let mut state = guest();
    state.check_registration_limit().unwrap();
    assert_eq!(state.add_registration("a"), Ok(1));
    assert_eq!(state.add_registration("b"), Ok(2));
    assert_eq!(
        state.check_registration_limit(),
        Err(KernelError::CapabilityDenied(
            "registration limit 2 exceeded".to_owned()
        ))
    );
    assert_eq!(state.remove_registration(1), Some("a"));
    assert_eq!(state.remove_registration(1), None);
    assert_eq!(state.add_registration("c"), Ok(3));
    state.clear_registrations();
    assert_eq!(state.remove_registration(3), None);
    state.next_registration = u32::MAX;
    assert_eq!(
        state.add_registration("d"),
        Err(KernelError::Internal(
            "registration identifier space exhausted".to_owned()
        ))
    );
}

#[test]
fn identities_cross_the_boundary_unchanged() {
    let service = ServiceId::new("db".to_owned(), [9; 32]);
    assert_eq!(service_from_wit(service_to_wit(&service)), Ok(service));
    let event = EventId::new("e".to_owned(), [8; 32]);
    assert_eq!(event_from_wit(event_to_wit(&event)), Ok(event));
}

#[test]
fn guests_see_missing_dependencies_and_capabilities_as_such() {
    let service = ServiceId::new("db".to_owned(), [0; 32]);
    let key = ProviderKey::new(service.clone(), RealmId(2));
    assert_eq!(
        to_kernel_error(CordisError::InactiveDependency { key }),
        KernelError::InactiveDependency("db@00000000#2".to_owned())
    );
    assert_eq!(
        to_kernel_error(CordisError::UndeclaredDependency { service }),
        KernelError::UndeclaredDependency("db@00000000".to_owned())
    );
    assert_eq!(
        to_kernel_error(CordisError::CapabilityDenied {
            capability: "random".to_owned()
        }),
        KernelError::CapabilityDenied("random".to_owned())
    );
    assert_eq!(
        to_kernel_error(CordisError::NextAlreadyUsed),
        KernelError::Internal(CordisError::NextAlreadyUsed.message())
    );
}

#[test]
fn failures_name_the_component_they_come_from() {
    let failed = |component: &str, message: &str| CordisError::ComponentFailed {
        component: component.to_owned(),
        message: message.to_owned(),
    };
    assert_eq!(
        from_kernel_error(format!("{:?}", KernelError::InactiveContext)),
        failed("wasm-guest", "InactiveContext")
    );
    assert_eq!(
        wasm_error(&WasmHostError::RegistrationCountUnderflow),
        failed("wasm-host", "guest registration count underflow")
    );
    assert_eq!(
        component_panic("c"),
        failed("c", "host panic while polling guest call")
    );
    assert_eq!(require_active(false, "c"), Err(failed("c", "instance is not active")));
    assert_eq!(require_active(true, "c"), Ok(()));
    assert_eq!(
        deactivation_outcome(Err(CordisError::RuntimeClosed), Err("x".to_owned())),
        Err(CordisError::RuntimeClosed)
    );
    assert_eq!(
        deactivation_outcome(Ok(()), Err("x".to_owned())),
        Err(CordisError::DisposerFailed {
            message: "x".to_owned()
        })
    );
}

fn wire_descriptor() -> WireDescriptor {
    WireDescriptor {
        name: "guest".to_owned(),
        version: "1.0".to_owned(),
        wit_version: "0.1".to_owned(),
        inject: vec![wire("db", 32)],
        provide: vec![wire("log", 32)],
        capabilities: vec!["random".to_owned(), "fs".to_owned(), "random".to_owned()],
    }
}

#[test]
fn guest_descriptors_are_read_field_by_field() {
    let read = descriptor_from_wit(wire_descriptor(), b"true").unwrap();
    assert_eq!(read.name, "guest");
    assert_eq!(read.kernel_abi, "0.1");
    assert_eq!(read.injects[0].requirement, Requirement::Required);
    assert_eq!(read.injects[0].service.name(), "db");
    assert_eq!(read.provides[0].name(), "log");
    assert_eq!(read.capabilities.items, ["fs", "random"]);
    let mut broken = wire_descriptor();
    broken.provide[0].abi_hash.push(1);
    assert!(descriptor_from_wit(broken, b"true").is_err());
}

#[test]
fn config_schemas_are_objects_or_booleans() {
    let refused = descriptor_from_wit(wire_descriptor(), b" null ").err();
    assert_eq!(
        refused,
        Some(WasmHostError::Descriptor {
            message: "config schema is not a JSON Schema object or boolean: invalid type: null, expected object or boolean"
                .to_owned()
        })
    );
    let unread = descriptor_from_wit(wire_descriptor(), b"{").err();
    assert_eq!(
        unread,
        Some(WasmHostError::Descriptor {
            message: "invalid config schema JSON: EOF while parsing an object at line 1 column 1"
                .to_owned()
        })
    );
    let unparsed = descriptor_with_schema(wire_descriptor(), Err("eof".to_owned())).err();
    assert_eq!(
        unparsed,
        Some(WasmHostError::Descriptor {
            message: "invalid config schema JSON: eof".to_owned()
        })
    );
}

#[test]
fn listeners_have_one_route_until_their_fiber_is_unbound() {
    let event = EventId::new("e".to_owned(), [0xab; 32]);
    let mut routes = ListenerRoutes::new();
    routes.register(event.clone(), 1, FiberId(5)).unwrap();
    routes.register(event.clone(), 2, FiberId(6)).unwrap();
    assert_eq!(
        routes.register(event.clone(), 1, FiberId(7)),
        Err(CordisError::ComponentFailed {
            component: "e@abababab".to_owned(),
            message: "listener 1 is already registered".to_owned(),
        })
    );
    assert_eq!(routes.owner(&event, 2), Ok(FiberId(6)));
    routes.unbind(FiberId(5));
    assert_eq!(
        routes.owner(&event, 1),
        Err(CordisError::ComponentFailed {
            component: "e@abababab".to_owned(),
            message: "listener 1 is not registered".to_owned(),
        })
    );
    assert_eq!(routes.owner(&event, 2), Ok(FiberId(6)));
    routes.remove(&event, 2);
    assert!(routes.owner(&event, 2).is_err());
}

#[test]
fn routes_wait_for_fibers_that_may_still_come_up() {
    let fiber = FiberId(8);
    assert_eq!(route_step(fiber, true, None), RouteStep::Ready);
    assert_eq!(route_step(fiber, false, Some(FiberState::Loading)), RouteStep::Wait);
    let failed = RouteStep::Fail(CordisError::ComponentFailed {
        component: "fiber:8".to_owned(),
        message: "provider has no dynamic route".to_owned(),
    });
    assert_eq!(route_step(fiber, false, Some(FiberState::Failed)), failed);
    assert_eq!(route_step(fiber, false, None), failed);
    let key = ProviderKey::new(ServiceId::new("db".to_owned(), [0; 32]), RealmId(1));
    assert_eq!(withdraw_outcome(Err(CordisError::ProviderNotFound { key })), Ok(()));
    assert_eq!(
        withdraw_outcome(Err(CordisError::RuntimeClosed)),
        Err(CordisError::RuntimeClosed)
    );
}

#[test]
fn limits_have_the_documented_defaults() {
    let limits = WasmLimits::default();
    assert_eq!(limits.fuel_per_call, 10_000_000);
    assert_eq!(limits.max_memory_bytes, 64 * 1024 * 1024);
    assert_eq!(limits.max_registrations, 10_000);
    assert_eq!(limits.max_payload_bytes, 1024 * 1024);
    assert_eq!(ArtifactPolicy::default().kernel_abi, "0.1");
}
