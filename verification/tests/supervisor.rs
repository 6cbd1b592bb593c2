use cordis::command::{Command, Reply};
use cordis::context::Context;
use cordis::error::CordisError;
use cordis::fiber::{FiberState, TransitionKind};
use cordis::id::{FiberId, IdSource, RealmId};
use cordis::service::{InjectSpec, ProviderKey, ServiceId};
use cordis::supervisor::{CompletionStatus, SupervisorState};
use std::collections::{BTreeMap, BTreeSet};

fn service(name: &str) -> ServiceId {
    ServiceId::new(name.to_owned(), [0; 32])
}

fn start() -> SupervisorState {
    SupervisorState::new(IdSource::new(), IdSource::new())
}

fn activate(
    state: &mut SupervisorState,
    fiber: FiberId,
    context: Context,
    injects: Vec<InjectSpec>,
) {
    let change = state
        .configure_dependencies(fiber, context, injects)
        .unwrap();
    let load = change.transitions.first().unwrap().clone();
    state.commit_dependencies(fiber).unwrap();
    let update = state
        .complete_transition(fiber, load.generation, Ok(()))
        .unwrap();
    assert_eq!(update.status, CompletionStatus::Applied);
    assert!(update.ready.is_empty());
}

#[test]
fn supervisor_serializes_concurrent_creates() {
    let mut state = start();
    let ids = (0..32)
        .map(|_| state.create_fiber(None, false).unwrap())
        .collect::<BTreeSet<_>>();

    assert_eq!(ids.len(), 32);
    assert_eq!(state.snapshot().fibers.len(), 32);
}

#[test]
fn create_fiber_validates_parent() {
    let mut state = start();
    let root = state.create_fiber(None, false).unwrap();
    assert_eq!(
        state.create_fiber(Some(root), true),
        Err(CordisError::InactiveFiber { fiber: root })
    );
    let child = state.create_fiber(Some(root), false).unwrap();
    let unknown = FiberId(1_000);

    assert_eq!(
        state.create_fiber(Some(unknown), false),
        Err(CordisError::UnknownFiber { fiber: unknown })
    );
    let snapshot = state.snapshot();
    assert_eq!(snapshot.fibers.len(), 2);
    assert_eq!(snapshot.fibers[1].parent, Some(root));
    assert_eq!(snapshot.fibers[1].id, child);
}

#[test]
fn allocated_realms_are_counted() {
    let mut state = start();
    let realm = state.allocate_realm();
    let next = state.allocate_realm();
    assert!(realm.get() > 0);
    assert!(next > realm);
    assert_eq!(state.snapshot().allocated_realms, 2);
}

#[test]
fn provider_changes_notify_only_matching_realm_consumers() {
    let mut state = start();
    let provider = state.create_fiber(None, false).unwrap();
    let consumer_a = state.create_fiber(None, false).unwrap();
    let consumer_b = state.create_fiber(None, false).unwrap();
    let database = service("database");
    let realm_a = state.allocate_realm();
    let realm_b = state.allocate_realm();
    let context_a = Context::root(consumer_a).isolate(database.clone(), realm_a);
    let context_b = Context::root(consumer_b).isolate(database.clone(), realm_b);

    let unresolved = state
        .configure_dependencies(
            consumer_a,
            context_a,
            vec![InjectSpec::required(database.clone())],
        )
        .unwrap();
    state
        .configure_dependencies(
            consumer_b,
            context_b,
            vec![InjectSpec::required(database.clone())],
        )
        .unwrap();
    assert!(!unresolved.resolution.is_ready());

    let key_a = ProviderKey::new(database.clone(), realm_a);
    let change = state.provide(key_a.clone(), provider).unwrap();
    assert_eq!(change.affected, vec![consumer_a]);
    let load = change.transitions.first().unwrap().clone();
    let committed = state.commit_dependencies(consumer_a).unwrap();
    assert_eq!(committed.lookup(&database), Ok(Some(provider)));

    let change = state.withdraw(key_a.clone(), provider).unwrap();
    assert_eq!(change.affected, vec![consumer_a]);
    assert!(change.transitions.is_empty());
    assert_eq!(
        state.commit_dependencies(consumer_a),
        Err(CordisError::InactiveDependency { key: key_a })
    );
    let snapshot = state.snapshot();
    let consumer = snapshot
        .fibers
        .iter()
        .find(|fiber| fiber.id == consumer_a)
        .unwrap();
    assert_eq!(
        consumer.committed.as_ref().unwrap().lookup(&database),
        Ok(Some(provider))
    );

    let update = state
        .complete_transition(consumer_a, load.generation, Ok(()))
        .unwrap();
    assert_eq!(update.status, CompletionStatus::Applied);
    let unload = update.ready.first().unwrap().clone();
    state
        .complete_transition(consumer_a, unload.generation, Ok(()))
        .unwrap();
    let snapshot = state.snapshot();
    let consumer = snapshot
        .fibers
        .iter()
        .find(|fiber| fiber.id == consumer_a)
        .unwrap();
    assert_eq!(consumer.state, FiberState::Pending);
    assert!(consumer.committed.is_none());
}

#[test]
fn provider_slots_are_unique_and_owner_checked() {
    let mut state = start();
    let first = state.create_fiber(None, false).unwrap();
    let second = state.create_fiber(None, false).unwrap();
    let key = ProviderKey::new(service("database"), state.allocate_realm());

    state.provide(key.clone(), first).unwrap();
    assert_eq!(
        state.provide(key.clone(), second),
        Err(CordisError::DuplicateProvider {
            key: key.clone(),
            provider: first,
        })
    );
    assert_eq!(
        state.withdraw(key.clone(), second),
        Err(CordisError::ProviderOwnershipMismatch {
            key: key.clone(),
            expected: second,
            actual: first,
        })
    );
    state.withdraw(key.clone(), first).unwrap();
    assert_eq!(
        state.withdraw(key.clone(), first),
        Err(CordisError::ProviderNotFound { key })
    );
}

#[test]
fn duplicate_inject_is_rejected_before_state_changes() {
    let mut state = start();
    let fiber = state.create_fiber(None, false).unwrap();
    let database = service("database");
    let realm = state.allocate_realm();
    let context = Context::root(fiber).isolate(database.clone(), realm);
    let before = state.snapshot();

    assert_eq!(
        state.configure_dependencies(
            fiber,
            context,
            vec![
                InjectSpec::required(database.clone()),
                InjectSpec::optional(database.clone()),
            ],
        ),
        Err(CordisError::DuplicateInject {
            fiber,
            service: database,
        })
    );
    assert_eq!(state.snapshot(), before);
}

#[test]
fn configuration_checks_context_fiber_and_realms() {
    let mut state = start();
    let fiber = state.create_fiber(None, false).unwrap();
    let other = FiberId(77);
    assert_eq!(
        state.configure_dependencies(fiber, Context::root(other), Vec::new()),
        Err(CordisError::ContextFiberMismatch {
            expected: fiber,
            actual: other,
        })
    );
    assert_eq!(
        state.configure_dependencies(other, Context::root(other), Vec::new()),
        Err(CordisError::UnknownFiber { fiber: other })
    );
    assert_eq!(
        state.configure_dependencies(
            fiber,
            Context::root(fiber),
            vec![InjectSpec::required(service("database"))],
        ),
        Err(CordisError::MissingRealm {
            service: service("database"),
        })
    );
    let key = ProviderKey::new(service("database"), RealmId(1));
    assert_eq!(
        state.provide(key, other),
        Err(CordisError::UnknownFiber { fiber: other })
    );
}

#[test]
fn dependency_cycle_stays_pending_and_recovers_when_broken() {
    let mut state = start();
    let fiber = state.create_fiber(None, false).unwrap();
    let recursive = service("recursive");
    let realm = state.allocate_realm();
    let key = ProviderKey::new(recursive.clone(), realm);
    state.provide(key.clone(), fiber).unwrap();

    let change = state
        .configure_dependencies(
            fiber,
            Context::root(fiber).isolate(recursive.clone(), realm),
            vec![InjectSpec::required(recursive)],
        )
        .unwrap();
    assert!(change.transitions.is_empty());
    let snapshot = state.snapshot();
    assert_eq!(snapshot.fibers[0].state, FiberState::Pending);
    assert_eq!(
        snapshot.fibers[0].dependency_error,
        Some(CordisError::DependencyCycle {
            fibers: vec![fiber],
        })
    );

    let change = state.withdraw(key, fiber).unwrap();
    assert!(change.transitions.is_empty());
    let snapshot = state.snapshot();
    assert_eq!(snapshot.fibers[0].state, FiberState::Pending);
    assert!(snapshot.fibers[0].dependency_error.is_none());
}

#[test]
fn dependency_cycle_reports_every_scc_member() {
    let mut state = start();
    let first = state.create_fiber(None, false).unwrap();
    let second = state.create_fiber(None, false).unwrap();
    let first_service = service("first");
    let second_service = service("second");
    let first_realm = state.allocate_realm();
    let second_realm = state.allocate_realm();
    state
        .provide(ProviderKey::new(first_service.clone(), first_realm), first)
        .unwrap();
    state
        .provide(
            ProviderKey::new(second_service.clone(), second_realm),
            second,
        )
        .unwrap();

    state
        .configure_dependencies(
            first,
            Context::root(first).isolate(second_service.clone(), second_realm),
            vec![InjectSpec::required(second_service)],
        )
        .unwrap();
    let change = state
        .configure_dependencies(
            second,
            Context::root(second).isolate(first_service.clone(), first_realm),
            vec![InjectSpec::required(first_service)],
        )
        .unwrap();
    assert!(change.transitions.is_empty());

    let expected = Some(CordisError::DependencyCycle {
        fibers: vec![first, second],
    });
    let snapshot = state.snapshot();
    assert_eq!(snapshot.fibers[0].dependency_error, expected);
    assert_eq!(snapshot.fibers[1].dependency_error, expected);
    assert_eq!(snapshot.fibers[1].state, FiberState::Pending);
    assert_eq!(
        state.dependency_cycles(),
        vec![Some(vec![first, second]), Some(vec![first, second])]
    );
}

#[test]
fn teardown_drains_consumers_before_providers() {
    let mut state = start();
    let provider = state.create_fiber(None, false).unwrap();
    let middle = state.create_fiber(None, false).unwrap();
    let leaf = state.create_fiber(None, false).unwrap();
    let database = service("database");
    let repository = service("repository");
    let database_realm = state.allocate_realm();
    let repository_realm = state.allocate_realm();

    activate(&mut state, provider, Context::root(provider), Vec::new());
    state
        .provide(ProviderKey::new(database.clone(), database_realm), provider)
        .unwrap();
    activate(
        &mut state,
        middle,
        Context::root(middle).isolate(database.clone(), database_realm),
        vec![InjectSpec::required(database)],
    );
    state
        .provide(
            ProviderKey::new(repository.clone(), repository_realm),
            middle,
        )
        .unwrap();
    activate(
        &mut state,
        leaf,
        Context::root(leaf).isolate(repository.clone(), repository_realm),
        vec![InjectSpec::required(repository)],
    );
    assert!(state.has_active_consumers(provider));
    assert!(!state.has_active_consumers(leaf));

    let ready = state.retire_fiber(provider).unwrap();
    assert_eq!(ready.len(), 1);
    assert_eq!(ready[0].fiber, leaf);
    let snapshot = state.snapshot();
    let blocked_middle = snapshot
        .fibers
        .iter()
        .find(|fiber| fiber.id == middle)
        .and_then(|fiber| fiber.active_transition.clone())
        .unwrap();
    assert_eq!(
        state.complete_transition(middle, blocked_middle.generation, Ok(())),
        Err(CordisError::TransitionBlocked { fiber: middle })
    );

    let update = state
        .complete_transition(leaf, ready[0].generation, Ok(()))
        .unwrap();
    assert_eq!(update.ready.len(), 1);
    assert_eq!(update.ready[0].fiber, middle);
    let update = state
        .complete_transition(middle, update.ready[0].generation, Ok(()))
        .unwrap();
    assert_eq!(update.ready.len(), 1);
    assert_eq!(update.ready[0].fiber, provider);
    let update = state
        .complete_transition(provider, update.ready[0].generation, Ok(()))
        .unwrap();
    assert!(update.ready.is_empty());

    let snapshot = state.snapshot();
    let states = snapshot
        .fibers
        .iter()
        .map(|fiber| (fiber.id, fiber.state))
        .collect::<BTreeMap<_, _>>();
    assert_eq!(states[&leaf], FiberState::Pending);
    assert_eq!(states[&middle], FiberState::Pending);
    assert_eq!(states[&provider], FiberState::Disposed);
    assert_eq!(snapshot.provider_count, 0);
    assert!(snapshot.is_quiescent());
    assert!(snapshot.fiber(provider).unwrap().is_disposed());
    assert!(snapshot.fiber(leaf).unwrap().is_settled());
    assert_eq!(
        snapshot.fiber(FiberId(99)).err(),
        Some(CordisError::UnknownFiber { fiber: FiberId(99) })
    );
}

#[test]
fn failed_load_withdraws_partial_providers_and_requires_restart() {
    let mut state = start();
    let dependency = state.create_fiber(None, false).unwrap();
    let component = state.create_fiber(None, false).unwrap();
    let consumer = state.create_fiber(None, false).unwrap();
    let input = service("input");
    let output = service("output");
    let input_realm = state.allocate_realm();
    let output_realm = state.allocate_realm();
    let input_key = ProviderKey::new(input.clone(), input_realm);
    let output_key = ProviderKey::new(output.clone(), output_realm);

    state.provide(input_key.clone(), dependency).unwrap();
    let change = state
        .configure_dependencies(
            component,
            Context::root(component).isolate(input.clone(), input_realm),
            vec![InjectSpec::required(input)],
        )
        .unwrap();
    let component_load = change.transitions[0].clone();
    state.commit_dependencies(component).unwrap();

    state.provide(output_key, component).unwrap();
    activate(
        &mut state,
        consumer,
        Context::root(consumer).isolate(output.clone(), output_realm),
        vec![InjectSpec::required(output)],
    );

    let failure = CordisError::DisposerFailed {
        message: "apply failed".to_owned(),
    };
    let update = state
        .complete_transition(
            component,
            component_load.generation,
            Err(failure.duplicate()),
        )
        .unwrap();
    assert_eq!(update.ready.len(), 1);
    assert_eq!(update.ready[0].fiber, consumer);

    let snapshot = state.snapshot();
    let failed = snapshot
        .fibers
        .iter()
        .find(|fiber| fiber.id == component)
        .unwrap();
    assert_eq!(failed.state, FiberState::Failed);
    assert_eq!(failed.failure.as_ref(), Some(&failure));
    assert!(failed.committed.is_none());
    assert_eq!(snapshot.provider_count, 1);

    state
        .complete_transition(consumer, update.ready[0].generation, Ok(()))
        .unwrap();
    let change = state.withdraw(input_key.clone(), dependency).unwrap();
    assert!(change.transitions.is_empty());
    let change = state.provide(input_key, dependency).unwrap();
    assert!(change.transitions.is_empty());

    let ready = state.restart_fiber(component).unwrap();
    assert_eq!(ready.len(), 1);
    assert_eq!(ready[0].fiber, component);
    state.commit_dependencies(component).unwrap();
    state
        .complete_transition(component, ready[0].generation, Ok(()))
        .unwrap();

    let snapshot = state.snapshot();
    let recovered = snapshot
        .fibers
        .iter()
        .find(|fiber| fiber.id == component)
        .unwrap();
    assert_eq!(recovered.state, FiberState::Active);
    assert!(recovered.failure.is_none());
}

#[test]
fn explicit_dependency_update_recovers_failed_fiber() {
    let mut state = start();
    let fiber = state.create_fiber(None, false).unwrap();
    let context = Context::root(fiber);
    let change = state
        .configure_dependencies(fiber, context.duplicate(), Vec::new())
        .unwrap();
    state.commit_dependencies(fiber).unwrap();
    state
        .complete_transition(
            fiber,
            change.transitions[0].generation,
            Err(CordisError::DisposerFailed {
                message: "invalid config".to_owned(),
            }),
        )
        .unwrap();

    let update = state
        .configure_dependencies(fiber, context, Vec::new())
        .unwrap();
    assert_eq!(update.transitions.len(), 1);
    state.commit_dependencies(fiber).unwrap();
    state
        .complete_transition(fiber, update.transitions[0].generation, Ok(()))
        .unwrap();

    let snapshot = state.snapshot();
    assert_eq!(snapshot.fibers[0].state, FiberState::Active);
    assert!(snapshot.fibers[0].failure.is_none());
}

#[test]
fn reload_runs_an_active_fiber_through_unload_and_load() {
    let mut state = start();
    let fiber = state.create_fiber(None, false).unwrap();
    activate(&mut state, fiber, Context::root(fiber), Vec::new());
    let ready = state.reload_fiber(fiber).unwrap();
    assert_eq!(ready.len(), 1);
    assert_eq!(ready[0].kind, TransitionKind::Unload);
    let update = state
        .complete_transition(fiber, ready[0].generation, Ok(()))
        .unwrap();
    assert_eq!(update.ready.len(), 1);
    assert!(matches!(update.ready[0].kind, TransitionKind::Load { .. }));
    let stale = state
        .complete_transition(fiber, ready[0].generation, Ok(()))
        .unwrap();
    assert_eq!(stale.status, CompletionStatus::IgnoredStale);
    assert!(stale.ready.is_empty());
    assert!(state.has_generations_left());
}

#[test]
fn commands_are_answered_until_shutdown() {
    let mut state = start();
    let (reply, more) = state.handle(Command::CreateFiber {
        parent: None,
        require_live_parent: false,
    });
    let Reply::Fiber(Ok(fiber)) = reply else {
        panic!("a fiber was asked for");
    };
    assert!(more);
    let (reply, _) = state.handle(Command::ConfigureDependencies {
        fiber,
        context: Context::root(fiber),
        injects: vec![],
    });
    let Reply::Dependencies(Ok(change)) = reply else {
        panic!("a declaration was made");
    };
    assert_eq!(change.transitions.len(), 1);
    let (reply, _) = state.handle(Command::CompleteTransition {
        fiber,
        generation: change.transitions[0].generation,
        result: Ok(()),
    });
    assert!(matches!(reply, Reply::Update(Ok(_))));
    let (reply, _) = state.handle(Command::ReloadFiber { fiber });
    let Reply::Work(Ok(work)) = reply else {
        panic!("a reload was asked for");
    };
    assert!(matches!(work[0].kind, TransitionKind::Unload));
    let unknown = FiberId(1_000);
    let before = state.snapshot();
    let (reply, more) = state.handle(Command::RetireFiber { fiber: unknown });
    assert!(matches!(
        reply,
        Reply::Work(Err(CordisError::UnknownFiber { fiber })) if fiber == unknown
    ));
    assert!(more);
    assert_eq!(state.snapshot(), before);
    let (reply, more) = state.handle(Command::Shutdown);
    let Reply::Snapshot(snapshot) = reply else {
        panic!("a snapshot is the last answer");
    };
    assert!(!more);
    assert_eq!(snapshot, before);
}

#[test]
fn disposed_fibers_stay_disposed() {
    let mut state = start();
    let fiber = state.create_fiber(None, false).unwrap();
    activate(&mut state, fiber, Context::root(fiber), vec![]);
    let (reply, _) = state.handle(Command::RetireFiber { fiber });
    let Reply::Work(Ok(work)) = reply else {
        panic!("a retirement was asked for");
    };
    let (reply, _) = state.handle(Command::CompleteTransition {
        fiber,
        generation: work[0].generation,
        result: Ok(()),
    });
    assert!(matches!(reply, Reply::Update(Ok(_))));
    assert_eq!(state.snapshot().fibers[0].state, FiberState::Disposed);
    state.handle(Command::RestartFiber { fiber });
    state.handle(Command::ConfigureDependencies {
        fiber,
        context: Context::root(fiber),
        injects: vec![],
    });
    assert_eq!(state.snapshot().fibers[0].state, FiberState::Disposed);
}

#[test]
fn chains_leave_whoever_else_waits() {
    let mut state = start();
    let other = state.create_fiber(None, false).unwrap();
    let user = state.create_fiber(None, false).unwrap();
    let provider = state.create_fiber(None, false).unwrap();
    let leaf = state.create_fiber(None, false).unwrap();
    let hopeful = state.create_fiber(None, false).unwrap();
    let cache = service("cache");
    let database = service("database");
    let absent = service("absent");
    let realm = state.allocate_realm();

    activate(&mut state, other, Context::root(other), Vec::new());
    state
        .provide(ProviderKey::new(cache.clone(), realm), other)
        .unwrap();
    activate(
        &mut state,
        user,
        Context::root(user).isolate(cache.clone(), realm),
        vec![InjectSpec::required(cache)],
    );
    activate(&mut state, provider, Context::root(provider), Vec::new());
    state
        .provide(ProviderKey::new(database.clone(), realm), provider)
        .unwrap();
    activate(
        &mut state,
        leaf,
        Context::root(leaf).isolate(database.clone(), realm),
        vec![InjectSpec::required(database.clone())],
    );
    let change = state
        .configure_dependencies(
            hopeful,
            Context::root(hopeful)
                .isolate(database.clone(), realm)
                .isolate(absent.clone(), realm),
            vec![InjectSpec::required(database), InjectSpec::required(absent)],
        )
        .unwrap();
    assert!(!change.resolution.is_ready());

    let held = state.retire_fiber(other).unwrap();
    assert_eq!(held.len(), 1);
    assert_eq!(held[0].fiber, user);

    let ready = state.retire_fiber(provider).unwrap();
    assert_eq!(ready.len(), 1);
    assert_eq!(ready[0].fiber, leaf);
    let update = state
        .complete_transition(leaf, ready[0].generation, Ok(()))
        .unwrap();
    assert_eq!(update.ready.len(), 1);
    assert_eq!(update.ready[0].fiber, provider);
    let update = state
        .complete_transition(provider, update.ready[0].generation, Ok(()))
        .unwrap();
    assert!(update.ready.is_empty());

    let snapshot = state.snapshot();
    assert_eq!(snapshot.fiber(provider).unwrap().state, FiberState::Disposed);
    assert_eq!(snapshot.fiber(hopeful).unwrap().state, FiberState::Pending);
    assert_eq!(snapshot.fiber(other).unwrap().state, FiberState::Unloading);
    let update = state
        .complete_transition(user, held[0].generation, Ok(()))
        .unwrap();
    assert_eq!(update.ready.len(), 1);
    assert_eq!(update.ready[0].fiber, other);
}
