//! Diagnostics raised by the runtime.
use crate::id::{EffectId, FiberId};
use crate::rendering::{errors_debug, push_errors_debug};
use crate::service::{
    provider_key_text, service_text, ProviderKey, ProviderKeyModel, ServiceId, ServiceModel,
};
use crate::text::{decimal, hex_byte, push_decimal, push_hex};
use vstd::prelude::*;

verus! {

/// Everything that can go wrong inside the runtime.
#[derive(Debug, PartialEq, Eq)]
pub enum CordisError {
    InactiveEffect { effect: EffectId },
    MissingRealm { service: ServiceId },
    UnknownFiber { fiber: FiberId },
    InactiveFiber { fiber: FiberId },
    ContextFiberMismatch { expected: FiberId, actual: FiberId },
    DuplicateInject { fiber: FiberId, service: ServiceId },
    DuplicateProvider { key: ProviderKey, provider: FiberId },
    ProviderNotFound { key: ProviderKey },
    ProviderOwnershipMismatch { key: ProviderKey, expected: FiberId, actual: FiberId },
    InactiveDependency { key: ProviderKey },
    UndeclaredDependency { service: ServiceId },
    ServiceIdentityMismatch { expected: ServiceId, actual: ServiceId },
    MissingMethodRuntime,
    MissingServiceDispatcher { provider: FiberId, service: ServiceId },
    MissingCommittedProvider { service: ServiceId },
    UnknownServiceMethod { service: ServiceId, method_id: u32 },
    ServiceEncodeFailed { message: String },
    ServiceDecodeFailed { message: String },
    EventEncodeFailed { message: String },
    EventDecodeFailed { message: String },
    PayloadLimitExceeded { actual: usize, limit: usize },
    KernelAbiMismatch { expected: String, actual: String },
    CapabilityDenied { capability: String },
    InvalidComponentConfig { component: String, path: String, message: String },
    ReentrantCall { fiber: FiberId },
    ComponentFailed { component: String, message: String },
    RuntimeClosed,
    SupervisorFailed { message: String },
    FiberExecutorPanicked { fiber: FiberId, message: String },
    TransitionBlocked { fiber: FiberId },
    DependencyCycle { fibers: Vec<FiberId> },
    EventListenersFailed { errors: Vec<CordisError> },
    EventListenerPanicked { message: String },
    NextAlreadyUsed,
    ChildEffectFailed { effect: EffectId, errors: Vec<CordisError> },
    DisposerPanic { message: String },
    DisposerFailed { message: String },
}

/// The content of an error.
pub enum ErrorModel {
    InactiveEffect { effect: EffectId },
    MissingRealm { service: ServiceModel },
    UnknownFiber { fiber: FiberId },
    InactiveFiber { fiber: FiberId },
    ContextFiberMismatch { expected: FiberId, actual: FiberId },
    DuplicateInject { fiber: FiberId, service: ServiceModel },
    DuplicateProvider { key: ProviderKeyModel, provider: FiberId },
    ProviderNotFound { key: ProviderKeyModel },
    ProviderOwnershipMismatch { key: ProviderKeyModel, expected: FiberId, actual: FiberId },
    InactiveDependency { key: ProviderKeyModel },
    UndeclaredDependency { service: ServiceModel },
    ServiceIdentityMismatch { expected: ServiceModel, actual: ServiceModel },
    MissingMethodRuntime,
    MissingServiceDispatcher { provider: FiberId, service: ServiceModel },
    MissingCommittedProvider { service: ServiceModel },
    UnknownServiceMethod { service: ServiceModel, method_id: u32 },
    ServiceEncodeFailed { message: Seq<char> },
    ServiceDecodeFailed { message: Seq<char> },
    EventEncodeFailed { message: Seq<char> },
    EventDecodeFailed { message: Seq<char> },
    PayloadLimitExceeded { actual: usize, limit: usize },
    KernelAbiMismatch { expected: Seq<char>, actual: Seq<char> },
    CapabilityDenied { capability: Seq<char> },
    InvalidComponentConfig { component: Seq<char>, path: Seq<char>, message: Seq<char> },
    ReentrantCall { fiber: FiberId },
    ComponentFailed { component: Seq<char>, message: Seq<char> },
    RuntimeClosed,
    SupervisorFailed { message: Seq<char> },
    FiberExecutorPanicked { fiber: FiberId, message: Seq<char> },
    TransitionBlocked { fiber: FiberId },
    DependencyCycle { fibers: Seq<FiberId> },
    EventListenersFailed { errors: Seq<ErrorModel> },
    EventListenerPanicked { message: Seq<char> },
    NextAlreadyUsed,
    ChildEffectFailed { effect: EffectId, errors: Seq<ErrorModel> },
    DisposerPanic { message: Seq<char> },
    DisposerFailed { message: Seq<char> },
}

impl View for CordisError {
    type V = ErrorModel;

    open spec fn view(&self) -> ErrorModel {
        error_model(*self)
    }
}

/// The content of an error, nested errors included.
pub open spec fn error_model(e: CordisError) -> ErrorModel
    decreases e,
{
    match e {
        CordisError::InactiveEffect { effect } => ErrorModel::InactiveEffect { effect },
        CordisError::MissingRealm { service } => ErrorModel::MissingRealm { service: service@ },
        CordisError::UnknownFiber { fiber } => ErrorModel::UnknownFiber { fiber },
        CordisError::InactiveFiber { fiber } => ErrorModel::InactiveFiber { fiber },
        CordisError::ContextFiberMismatch { expected, actual } => ErrorModel::ContextFiberMismatch {
            expected,
            actual,
        },
        CordisError::DuplicateInject { fiber, service } => ErrorModel::DuplicateInject {
            fiber,
            service: service@,
        },
        CordisError::DuplicateProvider { key, provider } => ErrorModel::DuplicateProvider {
            key: key@,
            provider,
        },
        CordisError::ProviderNotFound { key } => ErrorModel::ProviderNotFound { key: key@ },
        CordisError::ProviderOwnershipMismatch { key, expected, actual } => ErrorModel::ProviderOwnershipMismatch {
            key: key@,
            expected,
            actual,
        },
        CordisError::InactiveDependency { key } => ErrorModel::InactiveDependency { key: key@ },
        CordisError::UndeclaredDependency { service } => ErrorModel::UndeclaredDependency {
            service: service@,
        },
        CordisError::ServiceIdentityMismatch { expected, actual } => ErrorModel::ServiceIdentityMismatch {
            expected: expected@,
            actual: actual@,
        },
        CordisError::MissingMethodRuntime => ErrorModel::MissingMethodRuntime,
        CordisError::MissingServiceDispatcher { provider, service } => ErrorModel::MissingServiceDispatcher {
            provider,
            service: service@,
        },
        CordisError::MissingCommittedProvider { service } => ErrorModel::MissingCommittedProvider {
            service: service@,
        },
        CordisError::UnknownServiceMethod { service, method_id } => ErrorModel::UnknownServiceMethod {
            service: service@,
            method_id,
        },
        CordisError::ServiceEncodeFailed { message } => ErrorModel::ServiceEncodeFailed {
            message: message@,
        },
        CordisError::ServiceDecodeFailed { message } => ErrorModel::ServiceDecodeFailed {
            message: message@,
        },
        CordisError::EventEncodeFailed { message } => ErrorModel::EventEncodeFailed {
            message: message@,
        },
        CordisError::EventDecodeFailed { message } => ErrorModel::EventDecodeFailed {
            message: message@,
        },
        CordisError::PayloadLimitExceeded { actual, limit } => ErrorModel::PayloadLimitExceeded {
            actual,
            limit,
        },
        CordisError::KernelAbiMismatch { expected, actual } => ErrorModel::KernelAbiMismatch {
            expected: expected@,
            actual: actual@,
        },
        CordisError::CapabilityDenied { capability } => ErrorModel::CapabilityDenied {
            capability: capability@,
        },
        CordisError::InvalidComponentConfig { component, path, message } => ErrorModel::InvalidComponentConfig {
            component: component@,
            path: path@,
            message: message@,
        },
        CordisError::ReentrantCall { fiber } => ErrorModel::ReentrantCall { fiber },
        CordisError::ComponentFailed { component, message } => ErrorModel::ComponentFailed {
            component: component@,
            message: message@,
        },
        CordisError::RuntimeClosed => ErrorModel::RuntimeClosed,
        CordisError::SupervisorFailed { message } => ErrorModel::SupervisorFailed {
            message: message@,
        },
        CordisError::FiberExecutorPanicked { fiber, message } => ErrorModel::FiberExecutorPanicked {
            fiber,
            message: message@,
        },
        CordisError::TransitionBlocked { fiber } => ErrorModel::TransitionBlocked { fiber },
        CordisError::DependencyCycle { fibers } => ErrorModel::DependencyCycle { fibers: fibers@ },
        CordisError::EventListenersFailed { errors } => ErrorModel::EventListenersFailed {
            errors: Seq::new(
                errors@.len(),
                |i: int|
                    if 0 <= i < errors@.len() {
                        error_model(errors@[i])
                    } else {
                        ErrorModel::RuntimeClosed
                    },
            ),
        },
        CordisError::EventListenerPanicked { message } => ErrorModel::EventListenerPanicked {
            message: message@,
        },
        CordisError::NextAlreadyUsed => ErrorModel::NextAlreadyUsed,
        CordisError::ChildEffectFailed { effect, errors } => ErrorModel::ChildEffectFailed {
            effect,
            errors: Seq::new(
                errors@.len(),
                |i: int|
                    if 0 <= i < errors@.len() {
                        error_model(errors@[i])
                    } else {
                        ErrorModel::RuntimeClosed
                    },
            ),
        },
        CordisError::DisposerPanic { message } => ErrorModel::DisposerPanic { message: message@ },
        CordisError::DisposerFailed { message } => ErrorModel::DisposerFailed { message: message@ },
    }
}

/// The contents of a list of errors, in order.
pub open spec fn error_models(errors: Seq<CordisError>) -> Seq<ErrorModel> {
    Seq::new(errors.len(), |i: int| errors[i]@)
}

/// The content of an optional error.
pub open spec fn view_error(error: Option<CordisError>) -> Option<ErrorModel> {
    match error {
        Some(inner) => Some(inner@),
        None => None,
    }
}

/// A method identifier as `0x` and eight hexadecimal digits.
pub open spec fn method_text(id: u32) -> Seq<char> {
    "0x"@ + hex_byte((id / 0x100_0000) as u8) + hex_byte((id / 0x1_0000 % 0x100) as u8) + hex_byte(
        (id / 0x100 % 0x100) as u8,
    ) + hex_byte((id % 0x100) as u8)
}

/// `FiberId(n)`.
pub open spec fn fiber_debug_text(fiber: FiberId) -> Seq<char> {
    "FiberId("@ + decimal(fiber.0 as nat) + ")"@
}

/// The fibers of a list, separated by commas.
pub open spec fn fibers_inner_text(fibers: Seq<FiberId>) -> Seq<char>
    decreases fibers.len(),
{
    if fibers.len() == 0 {
        Seq::empty()
    } else if fibers.len() == 1 {
        fiber_debug_text(fibers[0])
    } else {
        fibers_inner_text(fibers.drop_last()) + ", "@ + fiber_debug_text(fibers.last())
    }
}

/// A bracketed list of fibers.
pub open spec fn fibers_text(fibers: Seq<FiberId>) -> Seq<char> {
    "["@ + fibers_inner_text(fibers) + "]"@
}

/// The message an error is shown with.
pub open spec fn error_text(e: ErrorModel) -> Seq<char> {
    match e {
        ErrorModel::InactiveEffect { effect } => "cannot add a disposer to inactive effect "@
            + decimal(effect.0 as nat),
        ErrorModel::MissingRealm { service } => "no realm is visible for service "@
            + service_text(service),
        ErrorModel::UnknownFiber { fiber } => "fiber "@ + decimal(fiber.0 as nat)
            + " does not exist"@,
        ErrorModel::InactiveFiber { fiber } => "fiber "@ + decimal(fiber.0 as nat)
            + " is not loading or active"@,
        ErrorModel::ContextFiberMismatch { expected, actual } => "context belongs to fiber "@
            + decimal(actual.0 as nat) + ", expected fiber "@ + decimal(expected.0 as nat),
        ErrorModel::DuplicateInject { fiber, service } => "fiber "@ + decimal(fiber.0 as nat)
            + " declares service "@ + service_text(service) + " more than once"@,
        ErrorModel::DuplicateProvider { key, provider } => "provider slot "@
            + provider_key_text(key) + " is already owned by fiber "@ + decimal(provider.0 as nat),
        ErrorModel::ProviderNotFound { key } => "provider slot "@ + provider_key_text(key)
            + " does not exist"@,
        ErrorModel::ProviderOwnershipMismatch { key, expected, actual } => "provider slot "@
            + provider_key_text(key) + " belongs to fiber "@ + decimal(actual.0 as nat)
            + ", not "@ + decimal(expected.0 as nat),
        ErrorModel::InactiveDependency { key } => "required dependency "@ + provider_key_text(key)
            + " is inactive"@,
        ErrorModel::UndeclaredDependency { service } => "service "@ + service_text(service)
            + " was not declared by this fiber"@,
        ErrorModel::ServiceIdentityMismatch { expected, actual } => "service dispatcher identity mismatch: expected "@
            + service_text(expected) + ", got "@ + service_text(actual),
        ErrorModel::MissingMethodRuntime => "component context has no method-fiber runtime"@,
        ErrorModel::MissingServiceDispatcher { provider, service } => "provider fiber "@
            + decimal(provider.0 as nat) + " has no dispatcher for service "@
            + service_text(service),
        ErrorModel::MissingCommittedProvider { service } => "committed dependency "@
            + service_text(service) + " has no provider"@,
        ErrorModel::UnknownServiceMethod { service, method_id } => "service "@
            + service_text(service) + " has no method with id "@ + method_text(method_id),
        ErrorModel::ServiceEncodeFailed { message } => "failed to encode service payload: "@
            + message,
        ErrorModel::ServiceDecodeFailed { message } => "failed to decode service payload: "@
            + message,
        ErrorModel::EventEncodeFailed { message } => "failed to encode event payload: "@ + message,
        ErrorModel::EventDecodeFailed { message } => "failed to decode event payload: "@ + message,
        ErrorModel::PayloadLimitExceeded { actual, limit } => "dynamic payload is "@
            + decimal(actual as nat) + " bytes, limit is "@ + decimal(limit as nat) + " bytes"@,
        ErrorModel::KernelAbiMismatch { expected, actual } => "kernel ABI mismatch: expected "@
            + expected + ", got "@ + actual,
        ErrorModel::CapabilityDenied { capability } => "component capability `"@ + capability
            + "` is denied"@,
        ErrorModel::InvalidComponentConfig { component, path, message } => "component `"@
            + component + "` configuration is invalid at "@ + path + ": "@ + message,
        ErrorModel::ReentrantCall { fiber } => "reentrant call into component fiber "@
            + decimal(fiber.0 as nat) + " is not allowed"@,
        ErrorModel::ComponentFailed { component, message } => "component `"@ + component
            + "` failed: "@ + message,
        ErrorModel::RuntimeClosed => "runtime supervisor is closed"@,
        ErrorModel::SupervisorFailed { message } => "runtime supervisor task failed: "@ + message,
        ErrorModel::FiberExecutorPanicked { fiber, message } => "fiber "@
            + decimal(fiber.0 as nat) + " executor panicked: "@ + message,
        ErrorModel::TransitionBlocked { fiber } => "fiber "@ + decimal(fiber.0 as nat)
            + " unload is waiting for active consumers"@,
        ErrorModel::DependencyCycle { fibers } => "dependency cycle contains fibers "@
            + fibers_text(fibers),
        ErrorModel::EventListenersFailed { errors } => "event listeners failed: "@
            + errors_debug(errors),
        ErrorModel::EventListenerPanicked { message } => "event listener panicked: "@ + message,
        ErrorModel::NextAlreadyUsed => "waterfall next was already called"@,
        ErrorModel::ChildEffectFailed { effect, .. } => "child effect "@
            + decimal(effect.0 as nat) + " failed during disposal"@,
        ErrorModel::DisposerPanic { message } => "effect disposer panicked: "@ + message,
        ErrorModel::DisposerFailed { message } => "effect disposer failed: "@ + message,
    }
}

/// Copies a list of fiber identifiers.
pub fn duplicate_fibers(fibers: &Vec<FiberId>) -> (r: Vec<FiberId>)
    ensures
        r@ == fibers@,
{
    let mut out: Vec<FiberId> = Vec::new();
    let mut i: usize = 0;
    while i < fibers.len()
        invariant
            i <= fibers.len(),
            out@ == fibers@.subrange(0, i as int),
        decreases fibers.len() - i,
    {
        out.push(fibers[i]);
        proof {
            assert(out@ =~= fibers@.subrange(0, i + 1));
        }
        i = i + 1;
    }
    proof {
        assert(out@ =~= fibers@);
    }
    out
}

fn push_method(out: &mut String, id: u32)
    ensures
        final(out)@ == old(out)@ + method_text(id),
{
    out.append("0x");
    push_hex(out, (id / 0x100_0000) as u8);
    push_hex(out, (id / 0x1_0000 % 0x100) as u8);
    push_hex(out, (id / 0x100 % 0x100) as u8);
    push_hex(out, (id % 0x100) as u8);
    proof {
        assert(out@ =~= old(out)@ + method_text(id));
    }
}

pub(crate) fn push_fibers(out: &mut String, fibers: &Vec<FiberId>)
    ensures
        final(out)@ == old(out)@ + fibers_text(fibers@),
{
    out.append("[");
    let ghost start = out@;
    let mut i: usize = 0;
    proof {
        assert(out@ =~= start + fibers_inner_text(fibers@.subrange(0, 0)));
    }
    while i < fibers.len()
        invariant
            i <= fibers.len(),
            out@ == start + fibers_inner_text(fibers@.subrange(0, i as int)),
        decreases fibers.len() - i,
    {
        let ghost done = fibers@.subrange(0, i as int);
        let ghost next = fibers@.subrange(0, i + 1);
        if i > 0 {
            out.append(", ");
        }
        out.append("FiberId(");
        push_decimal(out, fibers[i].0);
        out.append(")");
        proof {
            assert(next.drop_last() =~= done);
            assert(out@ =~= start + fibers_inner_text(next));
        }
        i = i + 1;
    }
    out.append("]");
    proof {
        assert(fibers@.subrange(0, i as int) =~= fibers@);
        assert(out@ =~= old(out)@ + fibers_text(fibers@));
    }
}

/// Copies a list of errors, nested errors included.
pub fn duplicate_errors(errors: &Vec<CordisError>) -> (r: Vec<CordisError>)
    ensures
        error_models(r@) == error_models(errors@),
    decreases errors,
{
    let mut out: Vec<CordisError> = Vec::new();
    let mut i: usize = 0;
    while i < errors.len()
        invariant
            i <= errors.len(),
            out.len() == i,
            forall|j: int| 0 <= j < i ==> (#[trigger] out@[j])@ == errors@[j]@,
        decreases errors.len() - i,
    {
        out.push(errors[i].duplicate());
        i = i + 1;
    }
    proof {
        assert(error_models(out@) =~= error_models(errors@));
    }
    out
}

impl CordisError {
    /// A copy with the same content.
    pub fn duplicate(&self) -> (r: CordisError)
        ensures
            r@ == self@,
        decreases self,
    {
        match self {
            CordisError::InactiveEffect { effect } => CordisError::InactiveEffect {
                effect: *effect,
            },
            CordisError::MissingRealm { service } => CordisError::MissingRealm {
                service: service.duplicate(),
            },
            CordisError::UnknownFiber { fiber } => CordisError::UnknownFiber { fiber: *fiber },
            CordisError::InactiveFiber { fiber } => CordisError::InactiveFiber { fiber: *fiber },
            CordisError::ContextFiberMismatch { expected, actual } => CordisError::ContextFiberMismatch {
                expected: *expected,
                actual: *actual,
            },
            CordisError::DuplicateInject { fiber, service } => CordisError::DuplicateInject {
                fiber: *fiber,
                service: service.duplicate(),
            },
            CordisError::DuplicateProvider { key, provider } => CordisError::DuplicateProvider {
                key: key.duplicate(),
                provider: *provider,
            },
            CordisError::ProviderNotFound { key } => CordisError::ProviderNotFound {
                key: key.duplicate(),
            },
            CordisError::ProviderOwnershipMismatch { key, expected, actual } => CordisError::ProviderOwnershipMismatch {
                key: key.duplicate(),
                expected: *expected,
                actual: *actual,
            },
            CordisError::InactiveDependency { key } => CordisError::InactiveDependency {
                key: key.duplicate(),
            },
            CordisError::UndeclaredDependency { service } => CordisError::UndeclaredDependency {
                service: service.duplicate(),
            },
            CordisError::ServiceIdentityMismatch { expected, actual } => CordisError::ServiceIdentityMismatch {
                expected: expected.duplicate(),
                actual: actual.duplicate(),
            },
            CordisError::MissingMethodRuntime => CordisError::MissingMethodRuntime,
            CordisError::MissingServiceDispatcher { provider, service } => CordisError::MissingServiceDispatcher {
                provider: *provider,
                service: service.duplicate(),
            },
            CordisError::MissingCommittedProvider { service } => CordisError::MissingCommittedProvider {
                service: service.duplicate(),
            },
            CordisError::UnknownServiceMethod { service, method_id } => CordisError::UnknownServiceMethod {
                service: service.duplicate(),
                method_id: *method_id,
            },
            CordisError::ServiceEncodeFailed { message } => CordisError::ServiceEncodeFailed {
                message: message.clone(),
            },
            CordisError::ServiceDecodeFailed { message } => CordisError::ServiceDecodeFailed {
                message: message.clone(),
            },
            CordisError::EventEncodeFailed { message } => CordisError::EventEncodeFailed {
                message: message.clone(),
            },
            CordisError::EventDecodeFailed { message } => CordisError::EventDecodeFailed {
                message: message.clone(),
            },
            CordisError::PayloadLimitExceeded { actual, limit } => CordisError::PayloadLimitExceeded {
                actual: *actual,
                limit: *limit,
            },
            CordisError::KernelAbiMismatch { expected, actual } => CordisError::KernelAbiMismatch {
                expected: expected.clone(),
                actual: actual.clone(),
            },
            CordisError::CapabilityDenied { capability } => CordisError::CapabilityDenied {
                capability: capability.clone(),
            },
            CordisError::InvalidComponentConfig { component, path, message } => CordisError::InvalidComponentConfig {
                component: component.clone(),
                path: path.clone(),
                message: message.clone(),
            },
            CordisError::ReentrantCall { fiber } => CordisError::ReentrantCall { fiber: *fiber },
            CordisError::ComponentFailed { component, message } => CordisError::ComponentFailed {
                component: component.clone(),
                message: message.clone(),
            },
            CordisError::RuntimeClosed => CordisError::RuntimeClosed,
            CordisError::SupervisorFailed { message } => CordisError::SupervisorFailed {
                message: message.clone(),
            },
            CordisError::FiberExecutorPanicked { fiber, message } => CordisError::FiberExecutorPanicked {
                fiber: *fiber,
                message: message.clone(),
            },
            CordisError::TransitionBlocked { fiber } => CordisError::TransitionBlocked {
                fiber: *fiber,
            },
            CordisError::DependencyCycle { fibers } => CordisError::DependencyCycle {
                fibers: duplicate_fibers(fibers),
            },
            CordisError::EventListenersFailed { errors } => {
                let copies = duplicate_errors(errors);
                let r = CordisError::EventListenersFailed { errors: copies };
                proof {
                    nested_models(errors@, copies@);
                    assert(r@->EventListenersFailed_errors =~= self@->EventListenersFailed_errors);
                }
                r
            },
            CordisError::EventListenerPanicked { message } => CordisError::EventListenerPanicked {
                message: message.clone(),
            },
            CordisError::NextAlreadyUsed => CordisError::NextAlreadyUsed,
            CordisError::ChildEffectFailed { effect, errors } => {
                let copies = duplicate_errors(errors);
                let r = CordisError::ChildEffectFailed { effect: *effect, errors: copies };
                proof {
                    nested_models(errors@, copies@);
                    assert(r@->ChildEffectFailed_errors =~= self@->ChildEffectFailed_errors);
                }
                r
            },
            CordisError::DisposerPanic { message } => CordisError::DisposerPanic {
                message: message.clone(),
            },
            CordisError::DisposerFailed { message } => CordisError::DisposerFailed {
                message: message.clone(),
            },
        }
    }

    /// The message shown for this error.
    pub fn message(&self) -> (r: String)
        ensures
            r@ == error_text(self@),
    {
        let mut out = String::new();
        match self {
            CordisError::InactiveEffect { effect } => {
                out.append("cannot add a disposer to inactive effect ");
                push_decimal(&mut out, effect.0);
                proof {
                    assert(out@ =~= error_text(self@));
                }
            },
            CordisError::MissingRealm { service } => {
                out.append("no realm is visible for service ");
                out.append(service.text().as_str());
                proof {
                    assert(out@ =~= error_text(self@));
                }
            },
            CordisError::UnknownFiber { fiber } => {
                out.append("fiber ");
                push_decimal(&mut out, fiber.0);
                out.append(" does not exist");
                proof {
                    assert(out@ =~= error_text(self@));
                }
            },
            CordisError::InactiveFiber { fiber } => {
                out.append("fiber ");
                push_decimal(&mut out, fiber.0);
                out.append(" is not loading or active");
                proof {
                    assert(out@ =~= error_text(self@));
                }
            },
            CordisError::ContextFiberMismatch { expected, actual } => {
                out.append("context belongs to fiber ");
                push_decimal(&mut out, actual.0);
                out.append(", expected fiber ");
                push_decimal(&mut out, expected.0);
                proof {
                    assert(out@ =~= error_text(self@));
                }
            },
            CordisError::DuplicateInject { fiber, service } => {
                out.append("fiber ");
                push_decimal(&mut out, fiber.0);
                out.append(" declares service ");
                out.append(service.text().as_str());
                out.append(" more than once");
                proof {
                    assert(out@ =~= error_text(self@));
                }
            },
            CordisError::DuplicateProvider { key, provider } => {
                out.append("provider slot ");
                out.append(key.text().as_str());
                out.append(" is already owned by fiber ");
                push_decimal(&mut out, provider.0);
                proof {
                    assert(out@ =~= error_text(self@));
                }
            },
            CordisError::ProviderNotFound { key } => {
                out.append("provider slot ");
                out.append(key.text().as_str());
                out.append(" does not exist");
                proof {
                    assert(out@ =~= error_text(self@));
                }
            },
            CordisError::ProviderOwnershipMismatch { key, expected, actual } => {
                out.append("provider slot ");
                out.append(key.text().as_str());
                out.append(" belongs to fiber ");
                push_decimal(&mut out, actual.0);
                out.append(", not ");
                push_decimal(&mut out, expected.0);
                proof {
                    assert(out@ =~= error_text(self@));
                }
            },
            CordisError::InactiveDependency { key } => {
                out.append("required dependency ");
                out.append(key.text().as_str());
                out.append(" is inactive");
                proof {
                    assert(out@ =~= error_text(self@));
                }
            },
            CordisError::UndeclaredDependency { service } => {
                out.append("service ");
                out.append(service.text().as_str());
                out.append(" was not declared by this fiber");
                proof {
                    assert(out@ =~= error_text(self@));
                }
            },
            CordisError::ServiceIdentityMismatch { expected, actual } => {
                out.append("service dispatcher identity mismatch: expected ");
                out.append(expected.text().as_str());
                out.append(", got ");
                out.append(actual.text().as_str());
                proof {
                    assert(out@ =~= error_text(self@));
                }
            },
            CordisError::MissingMethodRuntime => {
                out.append("component context has no method-fiber runtime");
                proof {
                    assert(out@ =~= error_text(self@));
                }
            },
            CordisError::MissingServiceDispatcher { provider, service } => {
                out.append("provider fiber ");
                push_decimal(&mut out, provider.0);
                out.append(" has no dispatcher for service ");
                out.append(service.text().as_str());
                proof {
                    assert(out@ =~= error_text(self@));
                }
            },
            CordisError::MissingCommittedProvider { service } => {
                out.append("committed dependency ");
                out.append(service.text().as_str());
                out.append(" has no provider");
                proof {
                    assert(out@ =~= error_text(self@));
                }
            },
            CordisError::UnknownServiceMethod { service, method_id } => {
                out.append("service ");
                out.append(service.text().as_str());
                out.append(" has no method with id ");
                push_method(&mut out, *method_id);
                proof {
                    assert(out@ =~= error_text(self@));
                }
            },
            CordisError::ServiceEncodeFailed { message } => {
                out.append("failed to encode service payload: ");
                out.append(message.as_str());
                proof {
                    assert(out@ =~= error_text(self@));
                }
            },
            CordisError::ServiceDecodeFailed { message } => {
                out.append("failed to decode service payload: ");
                out.append(message.as_str());
                proof {
                    assert(out@ =~= error_text(self@));
                }
            },
            CordisError::EventEncodeFailed { message } => {
                out.append("failed to encode event payload: ");
                out.append(message.as_str());
                proof {
                    assert(out@ =~= error_text(self@));
                }
            },
            CordisError::EventDecodeFailed { message } => {
                out.append("failed to decode event payload: ");
                out.append(message.as_str());
                proof {
                    assert(out@ =~= error_text(self@));
                }
            },
            CordisError::PayloadLimitExceeded { actual, limit } => {
                out.append("dynamic payload is ");
                push_decimal(&mut out, *actual as u64);
                out.append(" bytes, limit is ");
                push_decimal(&mut out, *limit as u64);
                out.append(" bytes");
                proof {
                    assert(out@ =~= error_text(self@));
                }
            },
            CordisError::KernelAbiMismatch { expected, actual } => {
                out.append("kernel ABI mismatch: expected ");
                out.append(expected.as_str());
                out.append(", got ");
                out.append(actual.as_str());
                proof {
                    assert(out@ =~= error_text(self@));
                }
            },
            CordisError::CapabilityDenied { capability } => {
                out.append("component capability `");
                out.append(capability.as_str());
                out.append("` is denied");
                proof {
                    assert(out@ =~= error_text(self@));
                }
            },
            CordisError::InvalidComponentConfig { component, path, message } => {
                out.append("component `");
                out.append(component.as_str());
                out.append("` configuration is invalid at ");
                out.append(path.as_str());
                out.append(": ");
                out.append(message.as_str());
                proof {
                    assert(out@ =~= error_text(self@));
                }
            },
            CordisError::ReentrantCall { fiber } => {
                out.append("reentrant call into component fiber ");
                push_decimal(&mut out, fiber.0);
                out.append(" is not allowed");
                proof {
                    assert(out@ =~= error_text(self@));
                }
            },
            CordisError::ComponentFailed { component, message } => {
                out.append("component `");
                out.append(component.as_str());
                out.append("` failed: ");
                out.append(message.as_str());
                proof {
                    assert(out@ =~= error_text(self@));
                }
            },
            CordisError::RuntimeClosed => {
                out.append("runtime supervisor is closed");
                proof {
                    assert(out@ =~= error_text(self@));
                }
            },
            CordisError::SupervisorFailed { message } => {
                out.append("runtime supervisor task failed: ");
                out.append(message.as_str());
                proof {
                    assert(out@ =~= error_text(self@));
                }
            },
            CordisError::FiberExecutorPanicked { fiber, message } => {
                out.append("fiber ");
                push_decimal(&mut out, fiber.0);
                out.append(" executor panicked: ");
                out.append(message.as_str());
                proof {
                    assert(out@ =~= error_text(self@));
                }
            },
            CordisError::TransitionBlocked { fiber } => {
                out.append("fiber ");
                push_decimal(&mut out, fiber.0);
                out.append(" unload is waiting for active consumers");
                proof {
                    assert(out@ =~= error_text(self@));
                }
            },
            CordisError::DependencyCycle { fibers } => {
                out.append("dependency cycle contains fibers ");
                push_fibers(&mut out, fibers);
                proof {
                    assert(out@ =~= error_text(self@));
                }
            },
            CordisError::EventListenersFailed { errors } => {
                out.append("event listeners failed: ");
                push_errors_debug(&mut out, errors);
                proof {
                    assert(error_models(errors@) =~= self@->EventListenersFailed_errors);
                    assert(out@ =~= error_text(self@));
                }
            },
            CordisError::EventListenerPanicked { message } => {
                out.append("event listener panicked: ");
                out.append(message.as_str());
                proof {
                    assert(out@ =~= error_text(self@));
                }
            },
            CordisError::NextAlreadyUsed => {
                out.append("waterfall next was already called");
                proof {
                    assert(out@ =~= error_text(self@));
                }
            },
            CordisError::ChildEffectFailed { effect, .. } => {
                out.append("child effect ");
                push_decimal(&mut out, effect.0);
                out.append(" failed during disposal");
                proof {
                    assert(out@ =~= error_text(self@));
                }
            },
            CordisError::DisposerPanic { message } => {
                out.append("effect disposer panicked: ");
                out.append(message.as_str());
                proof {
                    assert(out@ =~= error_text(self@));
                }
            },
            CordisError::DisposerFailed { message } => {
                out.append("effect disposer failed: ");
                out.append(message.as_str());
                proof {
                    assert(out@ =~= error_text(self@));
                }
            },
        }
        out
    }
}

proof fn nested_models(a: Seq<CordisError>, b: Seq<CordisError>)
    requires
        error_models(a) == error_models(b),
    ensures
        a.len() == b.len(),
        forall|i: int| 0 <= i < a.len() ==> (#[trigger] a[i])@ == b[i]@,
{
    assert(error_models(a).len() == a.len());
    assert(error_models(b).len() == b.len());
    assert forall|i: int| 0 <= i < a.len() implies (#[trigger] a[i])@ == b[i]@ by {
        assert(error_models(a)[i] == a[i]@);
        assert(error_models(b)[i] == b[i]@);
    }
}

} // verus!
