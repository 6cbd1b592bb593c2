//! How errors are shown inside other errors: by variant and fields.
use crate::error::{
    error_models, fiber_debug_text, fibers_text, push_fibers, CordisError, ErrorModel,
};
use crate::id::{EffectId, RealmId};
use crate::service::{ProviderKey, ProviderKeyModel, ServiceId, ServiceModel};
use crate::text::{decimal, push_decimal};
use vstd::prelude::*;

verus! {

/// A text in quotes with its special characters escaped.
pub uninterp spec fn debug_text(text: Seq<char>) -> Seq<char>;

/// The `Debug` rendering of `str`, through `format!`: the text in quotes, escaped. It is a
/// function of the text alone.
#[verifier::external_body]
fn debug_quoted(text: &str) -> (r: String)
    ensures
        r@ == debug_text(text@),
{
    format!("{text:?}")
}

/// `EffectId(n)`.
pub open spec fn effect_debug(effect: EffectId) -> Seq<char> {
    "EffectId("@ + decimal(effect.0 as nat) + ")"@
}

/// `RealmId(n)`.
pub open spec fn realm_debug(realm: RealmId) -> Seq<char> {
    "RealmId("@ + decimal(realm.0 as nat) + ")"@
}

/// The first `n` bytes in decimal, separated by commas.
pub open spec fn bytes_debug(bytes: Seq<u8>, n: nat) -> Seq<char>
    decreases n,
{
    if n == 0 {
        Seq::empty()
    } else {
        bytes_debug(bytes, (n - 1) as nat) + (if n > 1 {
            ", "@
        } else {
            Seq::empty()
        }) + decimal(bytes[n - 1] as nat)
    }
}

/// A service identity by its fields.
pub open spec fn service_debug(service: ServiceModel) -> Seq<char> {
    "ServiceId { name: "@ + debug_text(service.name) + ", abi_hash: ["@ + bytes_debug(
        service.abi_hash,
        service.abi_hash.len(),
    ) + "] }"@
}

/// A provider slot by its fields.
pub open spec fn key_debug(key: ProviderKeyModel) -> Seq<char> {
    "ProviderKey { service: "@ + service_debug(key.service) + ", realm: "@ + realm_debug(key.realm)
        + " }"@
}

/// An error by its variant and fields.
pub open spec fn error_debug(e: ErrorModel) -> Seq<char>
    decreases e, 0nat,
{
    match e {
        ErrorModel::InactiveEffect { effect } => "InactiveEffect { effect: "@
            + effect_debug(effect) + " }"@,
        ErrorModel::MissingRealm { service } => "MissingRealm { service: "@
            + service_debug(service) + " }"@,
        ErrorModel::UnknownFiber { fiber } => "UnknownFiber { fiber: "@ + fiber_debug_text(fiber)
            + " }"@,
        ErrorModel::InactiveFiber { fiber } => "InactiveFiber { fiber: "@
            + fiber_debug_text(fiber) + " }"@,
        ErrorModel::ContextFiberMismatch { expected, actual } =>
            "ContextFiberMismatch { expected: "@ + fiber_debug_text(expected)
            + ", actual: "@ + fiber_debug_text(actual) + " }"@,
        ErrorModel::DuplicateInject { fiber, service } => "DuplicateInject { fiber: "@
            + fiber_debug_text(fiber)
            + ", service: "@ + service_debug(service) + " }"@,
        ErrorModel::DuplicateProvider { key, provider } => "DuplicateProvider { key: "@
            + key_debug(key)
            + ", provider: "@ + fiber_debug_text(provider) + " }"@,
        ErrorModel::ProviderNotFound { key } => "ProviderNotFound { key: "@ + key_debug(key)
            + " }"@,
        ErrorModel::ProviderOwnershipMismatch { key, expected, actual } =>
            "ProviderOwnershipMismatch { key: "@ + key_debug(key)
            + ", expected: "@ + fiber_debug_text(expected)
            + ", actual: "@ + fiber_debug_text(actual) + " }"@,
        ErrorModel::InactiveDependency { key } => "InactiveDependency { key: "@ + key_debug(key)
            + " }"@,
        ErrorModel::UndeclaredDependency { service } => "UndeclaredDependency { service: "@
            + service_debug(service) + " }"@,
        ErrorModel::ServiceIdentityMismatch { expected, actual } =>
            "ServiceIdentityMismatch { expected: "@ + service_debug(expected)
            + ", actual: "@ + service_debug(actual) + " }"@,
        ErrorModel::MissingMethodRuntime => "MissingMethodRuntime"@,
        ErrorModel::MissingServiceDispatcher { provider, service } =>
            "MissingServiceDispatcher { provider: "@ + fiber_debug_text(provider)
            + ", service: "@ + service_debug(service) + " }"@,
        ErrorModel::MissingCommittedProvider { service } => "MissingCommittedProvider { service: "@
            + service_debug(service) + " }"@,
        ErrorModel::UnknownServiceMethod { service, method_id } =>
            "UnknownServiceMethod { service: "@ + service_debug(service)
            + ", method_id: "@ + decimal(method_id as nat) + " }"@,
        ErrorModel::ServiceEncodeFailed { message } => "ServiceEncodeFailed { message: "@
            + debug_text(message) + " }"@,
        ErrorModel::ServiceDecodeFailed { message } => "ServiceDecodeFailed { message: "@
            + debug_text(message) + " }"@,
        ErrorModel::EventEncodeFailed { message } => "EventEncodeFailed { message: "@
            + debug_text(message) + " }"@,
        ErrorModel::EventDecodeFailed { message } => "EventDecodeFailed { message: "@
            + debug_text(message) + " }"@,
        ErrorModel::PayloadLimitExceeded { actual, limit } => "PayloadLimitExceeded { actual: "@
            + decimal(actual as nat)
            + ", limit: "@ + decimal(limit as nat) + " }"@,
        ErrorModel::KernelAbiMismatch { expected, actual } => "KernelAbiMismatch { expected: "@
            + debug_text(expected)
            + ", actual: "@ + debug_text(actual) + " }"@,
        ErrorModel::CapabilityDenied { capability } => "CapabilityDenied { capability: "@
            + debug_text(capability) + " }"@,
        ErrorModel::InvalidComponentConfig { component, path, message } =>
            "InvalidComponentConfig { component: "@ + debug_text(component)
            + ", path: "@ + debug_text(path)
            + ", message: "@ + debug_text(message) + " }"@,
        ErrorModel::ReentrantCall { fiber } => "ReentrantCall { fiber: "@
            + fiber_debug_text(fiber) + " }"@,
        ErrorModel::ComponentFailed { component, message } => "ComponentFailed { component: "@
            + debug_text(component)
            + ", message: "@ + debug_text(message) + " }"@,
        ErrorModel::RuntimeClosed => "RuntimeClosed"@,
        ErrorModel::SupervisorFailed { message } => "SupervisorFailed { message: "@
            + debug_text(message) + " }"@,
        ErrorModel::FiberExecutorPanicked { fiber, message } => "FiberExecutorPanicked { fiber: "@
            + fiber_debug_text(fiber)
            + ", message: "@ + debug_text(message) + " }"@,
        ErrorModel::TransitionBlocked { fiber } => "TransitionBlocked { fiber: "@
            + fiber_debug_text(fiber) + " }"@,
        ErrorModel::DependencyCycle { fibers } => "DependencyCycle { fibers: "@
            + fibers_text(fibers) + " }"@,
        ErrorModel::EventListenersFailed { errors } => "EventListenersFailed { errors: "@
            + "["@ + errors_inner(errors, errors.len()) + "]"@ + " }"@,
        ErrorModel::EventListenerPanicked { message } => "EventListenerPanicked { message: "@
            + debug_text(message) + " }"@,
        ErrorModel::NextAlreadyUsed => "NextAlreadyUsed"@,
        ErrorModel::ChildEffectFailed { effect, errors } => "ChildEffectFailed { effect: "@
            + effect_debug(effect)
            + ", errors: "@ + "["@ + errors_inner(errors, errors.len()) + "]"@ + " }"@,
        ErrorModel::DisposerPanic { message } => "DisposerPanic { message: "@
            + debug_text(message) + " }"@,
        ErrorModel::DisposerFailed { message } => "DisposerFailed { message: "@
            + debug_text(message) + " }"@,
    }
}

/// The first `n` errors of a list, separated by commas.
pub open spec fn errors_inner(errors: Seq<ErrorModel>, n: nat) -> Seq<char>
    decreases errors, n,
{
    if n == 0 || n > errors.len() {
        Seq::empty()
    } else {
        errors_inner(errors, (n - 1) as nat) + (if n > 1 {
            ", "@
        } else {
            Seq::empty()
        }) + error_debug(errors[n - 1])
    }
}

fn push_named(out: &mut String, before: &str, n: u64)
    ensures
        final(out)@ == old(out)@ + (before@ + decimal(n as nat) + ")"@),
{
    out.append(before);
    push_decimal(out, n);
    out.append(")");
    proof {
        assert(out@ =~= old(out)@ + (before@ + decimal(n as nat) + ")"@));
    }
}

fn push_bytes_debug(out: &mut String, bytes: &[u8])
    ensures
        final(out)@ == old(out)@ + bytes_debug(bytes@, bytes@.len()),
{
    let ghost start = out@;
    let mut i: usize = 0;
    proof {
        assert(out@ =~= start + bytes_debug(bytes@, 0));
    }
    while i < bytes.len()
        invariant
            i <= bytes.len(),
            out@ == start + bytes_debug(bytes@, i as nat),
        decreases bytes.len() - i,
    {
        if i > 0 {
            out.append(", ");
        }
        push_decimal(out, bytes[i] as u64);
        proof {
            assert(out@ =~= start + bytes_debug(bytes@, (i + 1) as nat));
        }
        i = i + 1;
    }
}

fn push_service_debug(out: &mut String, service: &ServiceId)
    ensures
        final(out)@ == old(out)@ + service_debug(service@),
{
    out.append("ServiceId { name: ");
    out.append(debug_quoted(service.name.as_str()).as_str());
    out.append(", abi_hash: [");
    push_bytes_debug(out, service.abi_hash.as_slice());
    out.append("] }");
    proof {
        assert(out@ =~= old(out)@ + service_debug(service@));
    }
}

fn push_key_debug(out: &mut String, key: &ProviderKey)
    ensures
        final(out)@ == old(out)@ + key_debug(key@),
{
    out.append("ProviderKey { service: ");
    push_service_debug(out, &key.service);
    out.append(", realm: ");
    push_named(out, "RealmId(", key.realm.0);
    out.append(" }");
    proof {
        assert(out@ =~= old(out)@ + key_debug(key@));
    }
}

/// Renders an error by its variant and fields.
pub fn render_error(e: &CordisError) -> (r: String)
    ensures
        r@ == error_debug(e@),
    decreases e, 1nat,
{
    let mut out = String::new();
    match e {
        CordisError::InactiveEffect { effect } => {
            out.append("InactiveEffect { effect: ");
            push_named(&mut out, "EffectId(", effect.0);
            out.append(" }");
            proof {
                assert(out@ =~= error_debug(e@));
            }
        },
        CordisError::MissingRealm { service } => {
            out.append("MissingRealm { service: ");
            push_service_debug(&mut out, service);
            out.append(" }");
            proof {
                assert(out@ =~= error_debug(e@));
            }
        },
        CordisError::UnknownFiber { fiber } => {
            out.append("UnknownFiber { fiber: ");
            push_named(&mut out, "FiberId(", fiber.0);
            out.append(" }");
            proof {
                assert(out@ =~= error_debug(e@));
            }
        },
        CordisError::InactiveFiber { fiber } => {
            out.append("InactiveFiber { fiber: ");
            push_named(&mut out, "FiberId(", fiber.0);
            out.append(" }");
            proof {
                assert(out@ =~= error_debug(e@));
            }
        },
        CordisError::ContextFiberMismatch { expected, actual } => {
            out.append("ContextFiberMismatch { expected: ");
            push_named(&mut out, "FiberId(", expected.0);
            out.append(", actual: ");
            push_named(&mut out, "FiberId(", actual.0);
            out.append(" }");
            proof {
                assert(out@ =~= error_debug(e@));
            }
        },
        CordisError::DuplicateInject { fiber, service } => {
            out.append("DuplicateInject { fiber: ");
            push_named(&mut out, "FiberId(", fiber.0);
            out.append(", service: ");
            push_service_debug(&mut out, service);
            out.append(" }");
            proof {
                assert(out@ =~= error_debug(e@));
            }
        },
        CordisError::DuplicateProvider { key, provider } => {
            out.append("DuplicateProvider { key: ");
            push_key_debug(&mut out, key);
            out.append(", provider: ");
            push_named(&mut out, "FiberId(", provider.0);
            out.append(" }");
            proof {
                assert(out@ =~= error_debug(e@));
            }
        },
        CordisError::ProviderNotFound { key } => {
            out.append("ProviderNotFound { key: ");
            push_key_debug(&mut out, key);
            out.append(" }");
            proof {
                assert(out@ =~= error_debug(e@));
            }
        },
        CordisError::ProviderOwnershipMismatch { key, expected, actual } => {
            out.append("ProviderOwnershipMismatch { key: ");
            push_key_debug(&mut out, key);
            out.append(", expected: ");
            push_named(&mut out, "FiberId(", expected.0);
            out.append(", actual: ");
            push_named(&mut out, "FiberId(", actual.0);
            out.append(" }");
            proof {
                assert(out@ =~= error_debug(e@));
            }
        },
        CordisError::InactiveDependency { key } => {
            out.append("InactiveDependency { key: ");
            push_key_debug(&mut out, key);
            out.append(" }");
            proof {
                assert(out@ =~= error_debug(e@));
            }
        },
        CordisError::UndeclaredDependency { service } => {
            out.append("UndeclaredDependency { service: ");
            push_service_debug(&mut out, service);
            out.append(" }");
            proof {
                assert(out@ =~= error_debug(e@));
            }
        },
        CordisError::ServiceIdentityMismatch { expected, actual } => {
            out.append("ServiceIdentityMismatch { expected: ");
            push_service_debug(&mut out, expected);
            out.append(", actual: ");
            push_service_debug(&mut out, actual);
            out.append(" }");
            proof {
                assert(out@ =~= error_debug(e@));
            }
        },
        CordisError::MissingMethodRuntime => {
            out.append("MissingMethodRuntime");
            proof {
                assert(out@ =~= error_debug(e@));
            }
        },
        CordisError::MissingServiceDispatcher { provider, service } => {
            out.append("MissingServiceDispatcher { provider: ");
            push_named(&mut out, "FiberId(", provider.0);
            out.append(", service: ");
            push_service_debug(&mut out, service);
            out.append(" }");
            proof {
                assert(out@ =~= error_debug(e@));
            }
        },
        CordisError::MissingCommittedProvider { service } => {
            out.append("MissingCommittedProvider { service: ");
            push_service_debug(&mut out, service);
            out.append(" }");
            proof {
                assert(out@ =~= error_debug(e@));
            }
        },
        CordisError::UnknownServiceMethod { service, method_id } => {
            out.append("UnknownServiceMethod { service: ");
            push_service_debug(&mut out, service);
            out.append(", method_id: ");
            push_decimal(&mut out, *method_id as u64);
            out.append(" }");
            proof {
                assert(out@ =~= error_debug(e@));
            }
        },
        CordisError::ServiceEncodeFailed { message } => {
            out.append("ServiceEncodeFailed { message: ");
            out.append(debug_quoted(message.as_str()).as_str());
            out.append(" }");
            proof {
                assert(out@ =~= error_debug(e@));
            }
        },
        CordisError::ServiceDecodeFailed { message } => {
            out.append("ServiceDecodeFailed { message: ");
            out.append(debug_quoted(message.as_str()).as_str());
            out.append(" }");
            proof {
                assert(out@ =~= error_debug(e@));
            }
        },
        CordisError::EventEncodeFailed { message } => {
            out.append("EventEncodeFailed { message: ");
            out.append(debug_quoted(message.as_str()).as_str());
            out.append(" }");
            proof {
                assert(out@ =~= error_debug(e@));
            }
        },
        CordisError::EventDecodeFailed { message } => {
            out.append("EventDecodeFailed { message: ");
            out.append(debug_quoted(message.as_str()).as_str());
            out.append(" }");
            proof {
                assert(out@ =~= error_debug(e@));
            }
        },
        CordisError::PayloadLimitExceeded { actual, limit } => {
            out.append("PayloadLimitExceeded { actual: ");
            push_decimal(&mut out, *actual as u64);
            out.append(", limit: ");
            push_decimal(&mut out, *limit as u64);
            out.append(" }");
            proof {
                assert(out@ =~= error_debug(e@));
            }
        },
        CordisError::KernelAbiMismatch { expected, actual } => {
            out.append("KernelAbiMismatch { expected: ");
            out.append(debug_quoted(expected.as_str()).as_str());
            out.append(", actual: ");
            out.append(debug_quoted(actual.as_str()).as_str());
            out.append(" }");
            proof {
                assert(out@ =~= error_debug(e@));
            }
        },
        CordisError::CapabilityDenied { capability } => {
            out.append("CapabilityDenied { capability: ");
            out.append(debug_quoted(capability.as_str()).as_str());
            out.append(" }");
            proof {
                assert(out@ =~= error_debug(e@));
            }
        },
        CordisError::InvalidComponentConfig { component, path, message } => {
            out.append("InvalidComponentConfig { component: ");
            out.append(debug_quoted(component.as_str()).as_str());
            out.append(", path: ");
            out.append(debug_quoted(path.as_str()).as_str());
            out.append(", message: ");
            out.append(debug_quoted(message.as_str()).as_str());
            out.append(" }");
            proof {
                assert(out@ =~= error_debug(e@));
            }
        },
        CordisError::ReentrantCall { fiber } => {
            out.append("ReentrantCall { fiber: ");
            push_named(&mut out, "FiberId(", fiber.0);
            out.append(" }");
            proof {
                assert(out@ =~= error_debug(e@));
            }
        },
        CordisError::ComponentFailed { component, message } => {
            out.append("ComponentFailed { component: ");
            out.append(debug_quoted(component.as_str()).as_str());
            out.append(", message: ");
            out.append(debug_quoted(message.as_str()).as_str());
            out.append(" }");
            proof {
                assert(out@ =~= error_debug(e@));
            }
        },
        CordisError::RuntimeClosed => {
            out.append("RuntimeClosed");
            proof {
                assert(out@ =~= error_debug(e@));
            }
        },
        CordisError::SupervisorFailed { message } => {
            out.append("SupervisorFailed { message: ");
            out.append(debug_quoted(message.as_str()).as_str());
            out.append(" }");
            proof {
                assert(out@ =~= error_debug(e@));
            }
        },
        CordisError::FiberExecutorPanicked { fiber, message } => {
            out.append("FiberExecutorPanicked { fiber: ");
            push_named(&mut out, "FiberId(", fiber.0);
            out.append(", message: ");
            out.append(debug_quoted(message.as_str()).as_str());
            out.append(" }");
            proof {
                assert(out@ =~= error_debug(e@));
            }
        },
        CordisError::TransitionBlocked { fiber } => {
            out.append("TransitionBlocked { fiber: ");
            push_named(&mut out, "FiberId(", fiber.0);
            out.append(" }");
            proof {
                assert(out@ =~= error_debug(e@));
            }
        },
        CordisError::DependencyCycle { fibers } => {
            out.append("DependencyCycle { fibers: ");
            push_fibers(&mut out, fibers);
            out.append(" }");
            proof {
                assert(out@ =~= error_debug(e@));
            }
        },
        CordisError::EventListenersFailed { errors } => {
            out.append("EventListenersFailed { errors: ");
            push_errors_debug(&mut out, errors);
            out.append(" }");
            proof {
                assert(error_models(errors@) =~= e@->EventListenersFailed_errors);
                assert(out@ =~= error_debug(e@));
            }
        },
        CordisError::EventListenerPanicked { message } => {
            out.append("EventListenerPanicked { message: ");
            out.append(debug_quoted(message.as_str()).as_str());
            out.append(" }");
            proof {
                assert(out@ =~= error_debug(e@));
            }
        },
        CordisError::NextAlreadyUsed => {
            out.append("NextAlreadyUsed");
            proof {
                assert(out@ =~= error_debug(e@));
            }
        },
        CordisError::ChildEffectFailed { effect, errors } => {
            out.append("ChildEffectFailed { effect: ");
            push_named(&mut out, "EffectId(", effect.0);
            out.append(", errors: ");
            push_errors_debug(&mut out, errors);
            out.append(" }");
            proof {
                assert(error_models(errors@) =~= e@->ChildEffectFailed_errors);
                assert(out@ =~= error_debug(e@));
            }
        },
        CordisError::DisposerPanic { message } => {
            out.append("DisposerPanic { message: ");
            out.append(debug_quoted(message.as_str()).as_str());
            out.append(" }");
            proof {
                assert(out@ =~= error_debug(e@));
            }
        },
        CordisError::DisposerFailed { message } => {
            out.append("DisposerFailed { message: ");
            out.append(debug_quoted(message.as_str()).as_str());
            out.append(" }");
            proof {
                assert(out@ =~= error_debug(e@));
            }
        },
    }
    out
}

/// A bracketed list of errors.
pub open spec fn errors_debug(errors: Seq<ErrorModel>) -> Seq<char> {
    "["@ + errors_inner(errors, errors.len()) + "]"@
}

/// Appends a list of errors, each by its variant and fields.
pub fn push_errors_debug(out: &mut String, errors: &Vec<CordisError>)
    ensures
        final(out)@ == old(out)@ + errors_debug(error_models(errors@)),
    decreases errors, 0nat,
{
    let ghost models = error_models(errors@);
    out.append("[");
    let ghost start = out@;
    let mut i: usize = 0;
    proof {
        assert(out@ =~= start + errors_inner(models, 0));
    }
    while i < errors.len()
        invariant
            models == error_models(errors@),
            i <= errors.len(),
            out@ == start + errors_inner(models, i as nat),
        decreases errors.len() - i,
    {
        if i > 0 {
            out.append(", ");
        }
        proof {
            assert(decreases_to!(errors => errors@[i as int]));
            assert(models[i as int] == errors@[i as int]@);
        }
        out.append(render_error(&errors[i]).as_str());
        proof {
            assert(out@ =~= start + errors_inner(models, (i + 1) as nat));
        }
        i = i + 1;
    }
    out.append("]");
    proof {
        assert(out@ =~= old(out)@ + errors_debug(models));
    }
}

} // verus!
