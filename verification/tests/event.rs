use cordis::error::CordisError;
use cordis::event::{
    collect_parallel, listener_matches, listener_panic, run_waterfall, serial_outcome, serial_step,
    AsyncEvent, BailEvent, EventTarget, ListenerOptions, Next, SerialStep, WaterfallEvent,
    WaterfallTurn,
};
use cordis::id::{EffectId, FiberId, IdSource, RealmId};
use cordis::rendering::render_error;
use cordis::service::{ProviderKey, ServiceId};
use std::ops::ControlFlow;

const EFFECT: EffectId = EffectId(1);

#[test]
fn listeners_are_effect_owned_and_prepend_has_its_own_segment() {
    let mut ids = IdSource::new();
    let mut event = AsyncEvent::<u32>::new();
    let mut registered = Vec::new();
    for (value, options) in [
        (1, ListenerOptions::global()),
        (2, ListenerOptions::global().prepend()),
        (3, ListenerOptions::global().prepend()),
    ] {
        registered.push(event.listen(&mut ids, EFFECT, true, options, value).unwrap());
    }

    let calls = event
        .listeners
        .matching(EventTarget::Global)
        .into_iter()
        .map(|id| *event.listeners.callback(id).unwrap())
        .collect::<Vec<_>>();
    assert_eq!(calls, vec![2, 3, 1]);
    for id in registered {
        event.listeners.remove(id);
        assert!(event.listeners.callback(id).is_none());
    }
    assert!(event.listeners.matching(EventTarget::Global).is_empty());
    assert_eq!(
        event.listen(&mut ids, EFFECT, false, ListenerOptions::global(), 4),
        Err(CordisError::InactiveEffect { effect: EFFECT })
    );
}

#[test]
fn parallel_dispatch_collects_values_or_every_error() {
    assert_eq!(
        collect_parallel(vec![Ok(1), Ok(2)]),
        Ok(vec![1, 2])
    );
    assert_eq!(
        collect_parallel(vec![
            Err(CordisError::RuntimeClosed),
            Ok(1),
            Err(CordisError::NextAlreadyUsed),
        ]),
        Err(CordisError::EventListenersFailed {
            errors: vec![CordisError::RuntimeClosed, CordisError::NextAlreadyUsed],
        })
    );
}

#[test]
fn serial_breaks_and_realm_filter_keeps_global_listeners() {
    let mut ids = IdSource::new();
    let mut realms = IdSource::new();
    let mut event = AsyncEvent::<ControlFlow<&'static str>>::new();
    let realm = RealmId::next(&mut realms);
    let other = RealmId::next(&mut realms);
    for (options, result) in [
        (ListenerOptions::global(), ControlFlow::Continue(())),
        (ListenerOptions::realm(other), ControlFlow::Break("wrong")),
        (ListenerOptions::realm(realm), ControlFlow::Break("stop")),
    ] {
        event.listen(&mut ids, EFFECT, true, options, result).unwrap();
    }
    let mut calls = 0;
    let mut outcome = Ok(None);
    for id in event.listeners.matching(EventTarget::Realm(realm)) {
        calls += 1;
        let result = *event.listeners.callback(id).unwrap();
        if let SerialStep::Done(done) = serial_step(Ok(result)) {
            outcome = done;
            break;
        }
    }
    assert_eq!(outcome, Ok(Some("stop")));
    assert_eq!(calls, 2);
}

#[test]
fn realm_listeners_do_not_hear_global_dispatches() {
    assert!(listener_matches(EventTarget::Global, EventTarget::Realm(RealmId(1))));
    assert!(!listener_matches(EventTarget::Realm(RealmId(1)), EventTarget::Global));
    assert!(!listener_matches(
        EventTarget::Realm(RealmId(1)),
        EventTarget::Realm(RealmId(2))
    ));
}

#[test]
fn waterfall_runs_as_an_onion() {
    let mut ids = IdSource::new();
    let mut event = WaterfallEvent::<i32>::new();
    event
        .listen(&mut ids, EFFECT, true, ListenerOptions::global(), 1)
        .unwrap();
    event
        .listen(&mut ids, EFFECT, true, ListenerOptions::global(), 10)
        .unwrap();
    let order = event.listeners.matching(EventTarget::Global);

    fn enter(
        event: &WaterfallEvent<i32>,
        order: &[cordis::id::ListenerId],
        index: usize,
        value: i32,
        calls: &mut Vec<String>,
    ) -> Result<i32, CordisError> {
        match run_waterfall(order.len(), index) {
            WaterfallTurn::Finish => Ok(value),
            WaterfallTurn::Run(at, mut next) => {
                let step = *event.listeners.callback(order[at]).unwrap();
                calls.push(format!("{step}-before"));
                let value = enter(event, order, next.call()?, value + step, calls)?;
                calls.push(format!("{step}-after"));
                Ok(value + step)
            }
        }
    }

    let mut calls = Vec::new();
    assert_eq!(enter(&event, &order, 0, 0, &mut calls), Ok(22));
    assert_eq!(calls, vec!["1-before", "10-before", "10-after", "1-after"]);
}

#[test]
fn waterfall_next_rejects_a_second_call() {
    let mut next = Next { step: Some(1) };
    assert_eq!(next.call(), Ok(1));
    assert_eq!(next.call(), Err(CordisError::NextAlreadyUsed));
}

#[test]
fn bail_is_synchronous_and_stops_at_break() {
    let mut ids = IdSource::new();
    let mut event = BailEvent::<ControlFlow<&'static str>>::new();
    for result in [ControlFlow::Continue(()), ControlFlow::Break("stop")] {
        event
            .listen(&mut ids, EFFECT, true, ListenerOptions::global(), result)
            .unwrap();
    }
    let mut calls = 0;
    let mut outcome = Ok(None);
    for id in event.listeners.matching(EventTarget::Global) {
        calls += 1;
        if let SerialStep::Done(done) = serial_step(Ok(*event.listeners.callback(id).unwrap())) {
            outcome = done;
            break;
        }
    }
    assert_eq!(outcome, Ok(Some("stop")));
    assert_eq!(calls, 2);
}

#[test]
fn the_first_error_or_break_decides_a_serial_dispatch() {
    let all: Vec<Result<ControlFlow<u8>, CordisError>> = vec![
        Ok(ControlFlow::Continue(())),
        Err(CordisError::RuntimeClosed),
        Ok(ControlFlow::Break(1)),
    ];
    assert_eq!(serial_outcome(all), Err(CordisError::RuntimeClosed));
    assert_eq!(
        serial_outcome::<u8>(vec![Ok(ControlFlow::Continue(()))]),
        Ok(None)
    );
}

#[test]
fn listener_panics_become_errors() {
    assert_eq!(
        listener_panic(Some("boom".to_owned())),
        CordisError::EventListenerPanicked {
            message: "boom".to_owned()
        }
    );
    assert_eq!(
        listener_panic(None).message(),
        "event listener panicked: non-string panic payload"
    );
}

fn every_error() -> Vec<CordisError> {
    let fiber = FiberId(3);
    let effect = EffectId(4);
    let service = || ServiceId::new("log \"x\"\n".to_owned(), [7; 32]);
    let key = || ProviderKey::new(service(), RealmId(5));
    let message = || "it's\t\u{301}\u{1f600}".to_owned();
    vec![
        CordisError::InactiveEffect { effect },
        CordisError::MissingRealm { service: service() },
        CordisError::UnknownFiber { fiber },
        CordisError::InactiveFiber { fiber },
        CordisError::ContextFiberMismatch {
            expected: fiber,
            actual: FiberId(12),
        },
        CordisError::DuplicateInject {
            fiber,
            service: service(),
        },
        CordisError::DuplicateProvider {
            key: key(),
            provider: fiber,
        },
        CordisError::ProviderNotFound { key: key() },
        CordisError::ProviderOwnershipMismatch {
            key: key(),
            expected: fiber,
            actual: FiberId(12),
        },
        CordisError::InactiveDependency { key: key() },
        CordisError::UndeclaredDependency { service: service() },
        CordisError::ServiceIdentityMismatch {
            expected: service(),
            actual: service(),
        },
        CordisError::MissingMethodRuntime,
        CordisError::MissingServiceDispatcher {
            provider: fiber,
            service: service(),
        },
        CordisError::MissingCommittedProvider { service: service() },
        CordisError::UnknownServiceMethod {
            service: service(),
            method_id: u32::MAX,
        },
        CordisError::ServiceEncodeFailed { message: message() },
        CordisError::ServiceDecodeFailed { message: message() },
        CordisError::EventEncodeFailed { message: message() },
        CordisError::EventDecodeFailed { message: message() },
        CordisError::PayloadLimitExceeded {
            actual: 10,
            limit: 0,
        },
        CordisError::KernelAbiMismatch {
            expected: message(),
            actual: message(),
        },
        CordisError::CapabilityDenied {
            capability: message(),
        },
        CordisError::InvalidComponentConfig {
            component: message(),
            path: message(),
            message: message(),
        },
        CordisError::ReentrantCall { fiber },
        CordisError::ComponentFailed {
            component: message(),
            message: message(),
        },
        CordisError::RuntimeClosed,
        CordisError::SupervisorFailed { message: message() },
        CordisError::FiberExecutorPanicked {
            fiber,
            message: message(),
        },
        CordisError::TransitionBlocked { fiber },
        CordisError::DependencyCycle {
            fibers: vec![fiber, FiberId(12)],
        },
        CordisError::EventListenersFailed { errors: vec![] },
        CordisError::EventListenerPanicked { message: message() },
        CordisError::NextAlreadyUsed,
        CordisError::ChildEffectFailed {
            effect,
            errors: vec![CordisError::NextAlreadyUsed, CordisError::RuntimeClosed],
        },
        CordisError::DisposerPanic { message: message() },
        CordisError::DisposerFailed { message: message() },
    ]
}

#[test]
fn failed_listeners_are_shown_by_variant_and_fields() {
    let errors = every_error();
    for error in &errors {
        assert_eq!(render_error(error), format!("{error:?}"));
    }
    let rendered = format!("event listeners failed: {errors:?}");
    assert_eq!(
        CordisError::EventListenersFailed { errors }.message(),
        rendered
    );
    assert_eq!(
        CordisError::EventListenersFailed {
            errors: vec![CordisError::EventListenerPanicked {
                message: "a\"b".to_owned()
            }]
        }
        .message(),
        "event listeners failed: [EventListenerPanicked { message: \"a\\\"b\" }]"
    );
}
