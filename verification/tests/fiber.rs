use cordis::error::CordisError;
use cordis::fiber::{
    DesiredEpoch, DesiredState, FiberMachine, FiberState, TransitionAdvance, TransitionKind,
};
use cordis::id::{EffectId, FiberId, IdSource, ListenerId, RealmId, TrackingId};
use cordis::service::{
    DependencyResolution, ProviderKey, Requirement, ResolvedInject, ServiceId,
};

fn epoch(provider: FiberId, realms: &mut IdSource) -> DesiredEpoch {
    let resolution = DependencyResolution::new(vec![ResolvedInject {
        key: ProviderKey::new(
            ServiceId::new("database".to_owned(), [0; 32]),
            RealmId::next(realms),
        ),
        provider: Some(provider),
        requirement: Requirement::Required,
    }]);
    DesiredEpoch::from_resolution(&resolution).unwrap()
}

#[test]
fn load_reaches_active_only_for_the_same_epoch() {
    let mut ids = IdSource::new();
    let mut realms = IdSource::new();
    let fiber = FiberId::next(&mut ids);
    let provider = FiberId::next(&mut ids);
    let desired = epoch(provider, &mut realms);
    let mut machine = FiberMachine::new(fiber);
    let load = machine
        .set_desired(DesiredState::Ready(desired.clone()))
        .unwrap();

    assert_eq!(machine.state(), FiberState::Loading);
    assert_eq!(
        machine.complete(load.generation, Ok(())),
        TransitionAdvance::Settled
    );
    assert_eq!(machine.state(), FiberState::Active);
    assert_eq!(machine.desired(), &DesiredState::Ready(desired));
}

#[test]
fn desired_changes_coalesce_during_load() {
    let mut ids = IdSource::new();
    let mut realms = IdSource::new();
    let fiber = FiberId::next(&mut ids);
    let first_epoch = epoch(FiberId::next(&mut ids), &mut realms);
    let second_epoch = epoch(FiberId::next(&mut ids), &mut realms);
    let mut machine = FiberMachine::new(fiber);
    let load = machine
        .set_desired(DesiredState::Ready(first_epoch))
        .unwrap();
    assert_eq!(
        machine.set_desired(DesiredState::Ready(second_epoch.clone())),
        None
    );

    let unload = match machine.complete(load.generation, Ok(())) {
        TransitionAdvance::Start(transition) => transition,
        other => panic!("expected unload, got {other:?}"),
    };
    assert_eq!(unload.kind, TransitionKind::Unload);
    let reload = match machine.complete(unload.generation, Ok(())) {
        TransitionAdvance::Start(transition) => transition,
        other => panic!("expected reload, got {other:?}"),
    };
    assert_eq!(
        reload.kind,
        TransitionKind::Load {
            epoch: second_epoch
        }
    );
}

#[test]
fn missing_dependencies_unload_an_active_fiber() {
    let mut ids = IdSource::new();
    let mut realms = IdSource::new();
    let mut machine = FiberMachine::new(FiberId::next(&mut ids));
    let load = machine
        .set_desired(DesiredState::Ready(epoch(FiberId::next(&mut ids), &mut realms)))
        .unwrap();
    machine.complete(load.generation, Ok(()));

    let unload = machine.set_desired(DesiredState::Waiting).unwrap();
    assert_eq!(machine.state(), FiberState::Unloading);
    assert_eq!(
        machine.complete(unload.generation, Ok(())),
        TransitionAdvance::Settled
    );
    assert_eq!(machine.state(), FiberState::Pending);
}

#[test]
fn failed_load_requires_explicit_restart() {
    let mut ids = IdSource::new();
    let mut realms = IdSource::new();
    let mut machine = FiberMachine::new(FiberId::next(&mut ids));
    let desired = epoch(FiberId::next(&mut ids), &mut realms);
    let load = machine
        .set_desired(DesiredState::Ready(desired.clone()))
        .unwrap();
    let failure = CordisError::DisposerFailed {
        message: "apply failed".to_owned(),
    };
    machine.complete(load.generation, Err(failure.duplicate()));

    assert_eq!(machine.state(), FiberState::Failed);
    assert_eq!(machine.failure(), Some(&failure));
    assert_eq!(machine.set_desired(DesiredState::Ready(desired)), None);
    assert!(machine.restart().is_some());
    assert_eq!(machine.state(), FiberState::Loading);
}

#[test]
fn stale_completion_cannot_change_current_transition() {
    let mut ids = IdSource::new();
    let mut realms = IdSource::new();
    let mut machine = FiberMachine::new(FiberId::next(&mut ids));
    let load = machine
        .set_desired(DesiredState::Ready(epoch(FiberId::next(&mut ids), &mut realms)))
        .unwrap();
    assert_eq!(
        machine.complete(load.generation + 1, Ok(())),
        TransitionAdvance::IgnoredStale
    );
    assert_eq!(machine.active_transition(), Some(&load));
}

#[test]
fn unload_failure_is_recorded_but_does_not_block_retirement() {
    let mut ids = IdSource::new();
    let mut realms = IdSource::new();
    let mut machine = FiberMachine::new(FiberId::next(&mut ids));
    let load = machine
        .set_desired(DesiredState::Ready(epoch(FiberId::next(&mut ids), &mut realms)))
        .unwrap();
    machine.complete(load.generation, Ok(()));
    let unload = machine.set_desired(DesiredState::Retired).unwrap();
    let failure = CordisError::DisposerFailed {
        message: "cleanup failed".to_owned(),
    };

    machine.complete(unload.generation, Err(failure.duplicate()));
    assert_eq!(machine.state(), FiberState::Disposed);
    assert_eq!(machine.teardown_error(), Some(&failure));
}

#[test]
fn optional_missing_provider_still_forms_an_epoch() {
    let mut realms = IdSource::new();
    let resolution = DependencyResolution::new(vec![ResolvedInject {
        key: ProviderKey::new(
            ServiceId::new("optional".to_owned(), [1; 32]),
            RealmId::next(&mut realms),
        ),
        provider: None,
        requirement: Requirement::Optional,
    }]);
    assert!(DesiredEpoch::from_resolution(&resolution).is_some());
}

#[test]
fn generated_transition_sequences_preserve_state_invariants() {
    let mut ids = IdSource::new();
    let mut realms = IdSource::new();
    for seed in 1_u64..=128 {
        let fiber = FiberId::next(&mut ids);
        let mut machine = FiberMachine::new(fiber);
        let ready = epoch(FiberId::next(&mut ids), &mut realms);
        let mut random = seed;
        let mut disposed = false;
        for _ in 0..256 {
            random = random
                .wrapping_mul(6_364_136_223_846_793_005)
                .wrapping_add(1);
            match random % 7 {
                0 => {
                    machine.set_desired(DesiredState::Waiting);
                }
                1 => {
                    machine.set_desired(DesiredState::Ready(ready.clone()));
                }
                2 => {
                    machine.set_desired(DesiredState::Retired);
                }
                3 => {
                    machine.restart();
                }
                4 => {
                    machine.reload();
                }
                5 | 6 => {
                    if let Some(active) = machine.active_transition().cloned() {
                        let generation = if random % 2 == 0 {
                            active.generation
                        } else {
                            active.generation.saturating_add(1)
                        };
                        let result = if random & 8 == 0 {
                            Ok(())
                        } else {
                            Err(CordisError::ComponentFailed {
                                component: "generated".into(),
                                message: "injected".into(),
                            })
                        };
                        machine.complete(generation, result);
                    }
                }
                _ => unreachable!(),
            }

            let transitioning =
                matches!(machine.state(), FiberState::Loading | FiberState::Unloading);
            assert_eq!(machine.active_transition().is_some(), transitioning);
            if disposed {
                assert_eq!(machine.state(), FiberState::Disposed);
            }
            disposed |= machine.state() == FiberState::Disposed;
        }
    }
}

#[test]
fn a_changed_provider_forces_a_reload() {
    let mut ids = IdSource::new();
    let mut realms = IdSource::new();
    let realm = RealmId::next(&mut realms);
    let service = ServiceId::new("database".to_owned(), [0; 32]);
    let with = |provider: FiberId| {
        DesiredEpoch::from_resolution(&DependencyResolution::new(vec![ResolvedInject {
            key: ProviderKey::new(service.clone(), realm),
            provider: Some(provider),
            requirement: Requirement::Required,
        }]))
        .unwrap()
    };
    let mut machine = FiberMachine::new(FiberId::next(&mut ids));
    let first = with(FiberId::next(&mut ids));
    let second = with(FiberId::next(&mut ids));
    let load = machine
        .set_desired(DesiredState::Ready(first.clone()))
        .unwrap();
    machine.complete(load.generation, Ok(()));
    assert_eq!(machine.set_desired(DesiredState::Ready(first)), None);
    let unload = machine.set_desired(DesiredState::Ready(second)).unwrap();
    assert_eq!(unload.kind, TransitionKind::Unload);
    assert_eq!(unload.generation, load.generation + 1);
}

#[test]
fn a_missing_required_provider_forms_no_epoch() {
    let mut realms = IdSource::new();
    let resolution = DependencyResolution::new(vec![ResolvedInject {
        key: ProviderKey::new(
            ServiceId::new("database".to_owned(), [1; 32]),
            RealmId::next(&mut realms),
        ),
        provider: None,
        requirement: Requirement::Required,
    }]);
    assert!(DesiredEpoch::from_resolution(&resolution).is_none());
    assert!(!resolution.is_ready());
    assert!(matches!(
        resolution.commit(),
        Err(CordisError::InactiveDependency { .. })
    ));
}

#[test]
fn ids_are_non_zero_and_monotonic() {
    let mut ids = IdSource::new();
    let first = EffectId::next(&mut ids);
    let second = EffectId::next(&mut ids);
    assert!(first.get() > 0);
    assert!(second > first);
}

#[test]
fn other_runtime_ids_are_non_zero_and_monotonic() {
    let mut fibers = IdSource::new();
    let mut realms = IdSource::new();
    let mut listeners = IdSource::new();
    let first_fiber = FiberId::next(&mut fibers);
    let second_fiber = FiberId::next(&mut fibers);
    let first_realm = RealmId::next(&mut realms);
    let second_realm = RealmId::next(&mut realms);
    let first_listener = ListenerId::next(&mut listeners);
    let second_listener = ListenerId::next(&mut listeners);
    assert!(first_fiber.get() > 0);
    assert!(second_fiber > first_fiber);
    assert!(first_realm.get() > 0);
    assert!(second_realm > first_realm);
    assert!(first_listener.get() > 0);
    assert!(second_listener > first_listener);
}

#[test]
fn ids_print_as_plain_numbers_and_run_out_before_the_last_value() {
    let mut ids = IdSource { next: 41 };
    assert_eq!(FiberId::next(&mut ids).text(), "41");
    assert_eq!(TrackingId::next(&mut ids).text(), "42");
    assert_eq!(ids.next, 43);
    assert!(ids.has_next());
    assert!(!IdSource { next: u64::MAX }.has_next());
}
