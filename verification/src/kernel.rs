//! The boundary between guests and the host kernel.
use crate::dynamic::{
    DynamicCall, DynamicComponentDescriptor, EventCall, EventReply, RegistrationRequest,
};
use crate::error::{error_text, CordisError, ErrorModel};
use crate::fiber::FiberState;
use crate::id::{EffectId, FiberId};
use crate::json::{parse_json_bytes, parsed_json_bytes, read_model};
use crate::native::{event_text, EventId, EventIdModel, EventMode};
use crate::order::TextSet;
use crate::policy::WasmLimits;
use crate::service::{
    provider_key_text, service_text, InjectModel, InjectSpec, Requirement, ServiceId, ServiceModel,
};
use crate::text::{decimal, group_views, push_decimal, views};
use crate::value::{json_text, JsonModel, Value};
use crate::wasm_error::{wasm_error_text, WasmErrorModel, WasmHostError};
use vstd::prelude::*;

verus! {

broadcast use group_views;

/// Errors a guest sees.
#[derive(Clone, Debug, PartialEq, Eq)]
pub enum KernelError {
    InactiveContext,
    InactiveDependency(String),
    UndeclaredDependency(String),
    CapabilityDenied(String),
    InvalidArgument(String),
    Internal(String),
}

/// The content of an error a guest sees.
pub enum KernelErrorModel {
    InactiveContext,
    InactiveDependency(Seq<char>),
    UndeclaredDependency(Seq<char>),
    CapabilityDenied(Seq<char>),
    InvalidArgument(Seq<char>),
    Internal(Seq<char>),
}

impl View for KernelError {
    type V = KernelErrorModel;

    open spec fn view(&self) -> KernelErrorModel {
        match self {
            KernelError::InactiveContext => KernelErrorModel::InactiveContext,
            KernelError::InactiveDependency(text) => KernelErrorModel::InactiveDependency(text@),
            KernelError::UndeclaredDependency(text) => KernelErrorModel::UndeclaredDependency(
                text@,
            ),
            KernelError::CapabilityDenied(text) => KernelErrorModel::CapabilityDenied(text@),
            KernelError::InvalidArgument(text) => KernelErrorModel::InvalidArgument(text@),
            KernelError::Internal(text) => KernelErrorModel::Internal(text@),
        }
    }
}

/// What a guest is told of a host error.
pub open spec fn seen_by_guest(error: ErrorModel) -> KernelErrorModel {
    match error {
        ErrorModel::InactiveDependency { key } => KernelErrorModel::InactiveDependency(
            provider_key_text(key),
        ),
        ErrorModel::UndeclaredDependency { service } => KernelErrorModel::UndeclaredDependency(
            service_text(service),
        ),
        ErrorModel::CapabilityDenied { capability } => KernelErrorModel::CapabilityDenied(
            capability,
        ),
        other => KernelErrorModel::Internal(error_text(other)),
    }
}

/// What a guest is told of a host error. Missing dependencies and capabilities keep their kind;
/// everything else is internal.
pub fn to_kernel_error(error: CordisError) -> (r: KernelError)
    ensures
        r@ == seen_by_guest(error@),
{
    match error {
        CordisError::InactiveDependency { key } => KernelError::InactiveDependency(key.text()),
        CordisError::UndeclaredDependency { service } => KernelError::UndeclaredDependency(
            service.text(),
        ),
        CordisError::CapabilityDenied { capability } => KernelError::CapabilityDenied(capability),
        other => KernelError::Internal(other.message()),
    }
}

/// An error a guest returned, given its debug rendering.
pub fn from_kernel_error(rendered: String) -> (r: CordisError)
    ensures
        r@ == (ErrorModel::ComponentFailed { component: "wasm-guest"@, message: rendered@ }),
{
    CordisError::ComponentFailed { component: "wasm-guest".to_owned(), message: rendered }
}

/// A failure of the host itself.
pub fn wasm_error(error: &WasmHostError) -> (r: CordisError)
    ensures
        r@ == (ErrorModel::ComponentFailed {
            component: "wasm-host"@,
            message: wasm_error_text(error@),
        }),
{
    CordisError::ComponentFailed { component: "wasm-host".to_owned(), message: error.message() }
}

/// A component that panicked while the host polled it.
pub fn component_panic(component: &str) -> (r: CordisError)
    ensures
        r@ == (ErrorModel::ComponentFailed {
            component: component@,
            message: "host panic while polling guest call"@,
        }),
{
    CordisError::ComponentFailed {
        component: component.to_owned(),
        message: "host panic while polling guest call".to_owned(),
    }
}

/// Calls reach only an active instance.
pub fn require_active(active: bool, component: &str) -> (r: Result<(), CordisError>)
    ensures
        match r {
            Ok(_) => active,
            Err(error) => !active && error@ == (ErrorModel::ComponentFailed {
                component: component@,
                message: "instance is not active"@,
            }),
        },
{
    if active {
        Ok(())
    } else {
        Err(
            CordisError::ComponentFailed {
                component: component.to_owned(),
                message: "instance is not active".to_owned(),
            },
        )
    }
}

/// Payloads stay within their limit.
pub fn validate_payload_limit(payload: &[u8], limit: usize) -> (r: Result<(), CordisError>)
    ensures
        match r {
            Ok(_) => payload@.len() <= limit,
            Err(error) => payload@.len() > limit && error@ == (ErrorModel::PayloadLimitExceeded {
                actual: payload@.len() as usize,
                limit,
            }),
        },
{
    if payload.len() <= limit {
        Ok(())
    } else {
        Err(CordisError::PayloadLimitExceeded { actual: payload.len(), limit })
    }
}

/// The content of an identity as guests spell it.
pub struct WireModel {
    pub name: Seq<char>,
    pub abi_hash: Seq<u8>,
}

/// A service or event identity as guests spell it: with a fingerprint of any length.
#[derive(Clone, Debug, PartialEq, Eq)]
pub struct WireId {
    pub name: String,
    pub abi_hash: Vec<u8>,
}

impl View for WireId {
    type V = WireModel;

    open spec fn view(&self) -> WireModel {
        WireModel { name: self.name@, abi_hash: self.abi_hash@ }
    }
}

/// The service a guest names. Fingerprints have 32 bytes.
pub open spec fn service_read(wire: WireModel) -> Result<ServiceModel, WasmErrorModel> {
    if wire.abi_hash.len() == 32 {
        Ok(ServiceModel { name: wire.name, abi_hash: wire.abi_hash })
    } else {
        Err(WasmErrorModel::Descriptor { message: "service ABI hash must contain 32 bytes"@ })
    }
}

/// The spelling of a service.
pub open spec fn service_written(service: ServiceModel) -> WireModel {
    WireModel { name: service.name, abi_hash: service.abi_hash }
}

/// The event a guest names.
pub open spec fn event_read(wire: WireModel) -> Result<EventIdModel, KernelErrorModel> {
    if wire.abi_hash.len() == 32 {
        Ok(EventIdModel { name: wire.name, abi_hash: wire.abi_hash })
    } else {
        Err(KernelErrorModel::InvalidArgument("event ABI hash must contain 32 bytes"@))
    }
}

/// The spelling of an event.
pub open spec fn event_written(event: EventIdModel) -> WireModel {
    WireModel { name: event.name, abi_hash: event.abi_hash }
}

/// Reads a fingerprint of exactly 32 bytes.
fn fingerprint(bytes: &[u8]) -> (r: Option<[u8; 32]>)
    ensures
        match r {
            Some(hash) => bytes@.len() == 32 && hash@ == bytes@,
            None => bytes@.len() != 32,
        },
{
    if bytes.len() != 32 {
        return None;
    }
    let mut hash: [u8; 32] = [0u8; 32];
    let mut i: usize = 0;
    while i < 32
        invariant
            bytes@.len() == 32,
            i <= 32,
            forall|k: int| 0 <= k < i ==> hash@[k] == bytes@[k],
        decreases 32 - i,
    {
        hash[i] = bytes[i];
        i = i + 1;
    }
    proof {
        assert(hash@ =~= bytes@);
    }
    Some(hash)
}

pub fn hash_from_bytes(bytes: &[u8]) -> (r: Result<[u8; 32], WasmHostError>)
    ensures
        match r {
            Ok(hash) => bytes@.len() == 32 && hash@ == bytes@,
            Err(error) => bytes@.len() != 32 && error@ == (WasmErrorModel::Descriptor {
                message: "service ABI hash must contain 32 bytes"@,
            }),
        },
{
    match fingerprint(bytes) {
        Some(hash) => Ok(hash),
        None => Err(
            WasmHostError::Descriptor {
                message: "service ABI hash must contain 32 bytes".to_owned(),
            },
        ),
    }
}

fn copy_bytes(bytes: &[u8]) -> (r: Vec<u8>)
    ensures
        r@ == bytes@,
{
    let mut out: Vec<u8> = Vec::new();
    let mut i: usize = 0;
    while i < bytes.len()
        invariant
            i <= bytes.len(),
            out@ == bytes@.take(i as int),
        decreases bytes.len() - i,
    {
        out.push(bytes[i]);
        proof {
            assert(bytes@.take(i + 1) =~= bytes@.take(i as int).push(bytes@[i as int]));
        }
        i = i + 1;
    }
    proof {
        assert(bytes@.take(i as int) =~= bytes@);
    }
    out
}

pub fn service_from_wit(service: WireId) -> (r: Result<ServiceId, WasmHostError>)
    ensures
        match (r, service_read(service@)) {
            (Ok(id), Ok(expected)) => id@ == expected,
            (Err(error), Err(expected)) => error@ == expected,
            _ => false,
        },
{
    match hash_from_bytes(service.abi_hash.as_slice()) {
        Ok(hash) => Ok(ServiceId::new(service.name, hash)),
        Err(error) => Err(error),
    }
}

pub fn service_to_wit(service: &ServiceId) -> (r: WireId)
    ensures
        r@ == service_written(service@),
{
    WireId {
        name: service.name().to_owned(),
        abi_hash: copy_bytes(service.abi_hash().as_slice()),
    }
}

pub fn event_from_wit(event: WireId) -> (r: Result<EventId, KernelError>)
    ensures
        match (r, event_read(event@)) {
            (Ok(id), Ok(expected)) => id@ == expected,
            (Err(error), Err(expected)) => error@ == expected,
            _ => false,
        },
{
    match fingerprint(event.abi_hash.as_slice()) {
        Some(hash) => Ok(EventId::new(event.name, hash)),
        None => Err(
            KernelError::InvalidArgument("event ABI hash must contain 32 bytes".to_owned()),
        ),
    }
}

pub fn event_to_wit(event: &EventId) -> (r: WireId)
    ensures
        r@ == event_written(event@),
{
    WireId { name: event.name().to_owned(), abi_hash: copy_bytes(event.abi_hash().as_slice()) }
}

/// A service or event keeps its identity across the boundary and back.
pub proof fn identities_survive_the_boundary(service: ServiceModel, event: EventIdModel)
    requires
        service.abi_hash.len() == 32,
        event.abi_hash.len() == 32,
    ensures
        service_read(service_written(service)) == Ok::<ServiceModel, WasmErrorModel>(service),
        event_read(event_written(event)) == Ok::<EventIdModel, KernelErrorModel>(event),
{
}

/// What a component says of itself, as guests spell it.
#[derive(Clone, Debug, PartialEq, Eq)]
pub struct WireDescriptor {
    pub name: String,
    pub version: String,
    pub wit_version: String,
    pub inject: Vec<WireId>,
    pub provide: Vec<WireId>,
    pub capabilities: Vec<String>,
}

/// What `schemars::Schema::try_from` says against a JSON value, given as text, that is no
/// schema.
pub uninterp spec fn schema_refused(text: Seq<char>) -> Seq<char>;

/// `schemars::Schema::try_from` on the value that `serde_json::from_str` reads. The message is
/// that of the refusal, and empty where there is none; it is a function of the text alone.
#[verifier::external_body]
fn schema_refusal(text: &str) -> (r: String)
    ensures
        r@ == schema_refused(text@),
{
    let value: serde_json::Value = match serde_json::from_str(text) {
        Ok(value) => value,
        Err(error) => return error.to_string(),
    };
    schemars::Schema::try_from(value).err().map(|error| error.to_string()).unwrap_or_default()
}

/// A schema is an object or a boolean.
pub open spec fn is_schema(value: JsonModel) -> bool {
    value is Object || value is Bool
}

/// All identities read, in order, or the error of the first that cannot be.
pub open spec fn services_read(wire: Seq<WireModel>, n: nat) -> Result<
    Seq<ServiceModel>,
    WasmErrorModel,
>
    decreases n,
{
    if n == 0 {
        Ok(Seq::empty())
    } else {
        match services_read(wire, (n - 1) as nat) {
            Err(error) => Err(error),
            Ok(before) => match service_read(wire[n - 1]) {
                Err(error) => Err(error),
                Ok(service) => Ok(before.push(service)),
            },
        }
    }
}

fn read_services(wire: Vec<WireId>) -> (r: Result<Vec<ServiceId>, WasmHostError>)
    ensures
        match (r, services_read(views(wire@), wire@.len())) {
            (Ok(services), Ok(expected)) => views(services@) == expected,
            (Err(error), Err(expected)) => error@ == expected,
            _ => false,
        },
{
    let mut out: Vec<ServiceId> = Vec::new();
    let mut i: usize = 0;
    proof {
        assert(views(out@) =~= Seq::empty());
    }
    while i < wire.len()
        invariant
            i <= wire.len(),
            services_read(views(wire@), i as nat) == Ok::<Seq<ServiceModel>, WasmErrorModel>(
                views(out@),
            ),
        decreases wire.len() - i,
    {
        let id = WireId {
            name: wire[i].name.clone(),
            abi_hash: copy_bytes(wire[i].abi_hash.as_slice()),
        };
        proof {
            assert(id@ == views(wire@)[i as int]);
        }
        match service_from_wit(id) {
            Err(error) => {
                proof {
                    services_read_stays(views(wire@), (i + 1) as nat, wire@.len());
                }
                return Err(error);
            },
            Ok(service) => {
                out.push(service);
            },
        }
        i = i + 1;
    }
    Ok(out)
}

proof fn services_read_stays(wire: Seq<WireModel>, m: nat, n: nat)
    requires
        m <= n,
        services_read(wire, m) is Err,
    ensures
        services_read(wire, n) == services_read(wire, m),
    decreases n,
{
    if m < n {
        services_read_stays(wire, m, (n - 1) as nat);
    }
}

/// All dependencies of a guest are required.
pub open spec fn all_required(services: Seq<ServiceModel>) -> Seq<InjectModel> {
    Seq::new(
        services.len(),
        |i: int| InjectModel { service: services[i], requirement: Requirement::Required },
    )
}

fn require_all(services: Vec<ServiceId>) -> (r: Vec<InjectSpec>)
    ensures
        views(r@) == all_required(views(services@)),
{
    let mut out: Vec<InjectSpec> = Vec::new();
    let mut i: usize = 0;
    while i < services.len()
        invariant
            i <= services.len(),
            views(out@) == all_required(views(services@)).take(i as int),
        decreases services.len() - i,
    {
        out.push(InjectSpec::required(services[i].duplicate()));
        proof {
            let all = all_required(views(services@));
            assert(all.len() == services@.len());
            assert(all.take(i + 1) =~= all.take(i as int).push(all[i as int]));
        }
        i = i + 1;
    }
    proof {
        let all = all_required(views(services@));
        assert(all.len() == services@.len());
        assert(all.take(i as int) =~= all);
    }
    out
}

/// The texts of a list as a set.
pub open spec fn text_set(texts: Seq<Seq<char>>) -> Set<Seq<char>> {
    texts.to_set()
}

fn collect_texts(texts: Vec<String>) -> (r: TextSet)
    ensures
        r.wf(),
        r@ == text_set(views(texts@)),
{
    let mut out = TextSet::new();
    let mut i: usize = 0;
    proof {
        assert(out@ =~= views(texts@).take(0).to_set());
    }
    while i < texts.len()
        invariant
            i <= texts.len(),
            out.wf(),
            out@ == views(texts@).take(i as int).to_set(),
        decreases texts.len() - i,
    {
        let _ = out.insert(texts[i].clone());
        proof {
            let all = views(texts@);
            let before = all.take(i as int);
            assert(all.take(i + 1) =~= before.push(all[i as int]));
            assert(all.take(i + 1).to_set() =~= before.to_set().insert(all[i as int])) by {
                assert forall|t: Seq<char>| #[trigger]
                    all.take(i + 1).contains(t) <==> before.contains(t) || t == all[i as int] by {
                    if before.contains(t) {
                        let k = choose|k: int| 0 <= k < before.len() && before[k] == t;
                        assert(all.take(i + 1)[k] == t);
                    }
                    assert(all.take(i + 1)[i as int] == all[i as int]);
                }
            }
        }
        i = i + 1;
    }
    proof {
        assert(views(texts@).take(i as int) =~= views(texts@));
    }
    out
}

/// Why a descriptor is refused, in the order of the checks.
pub open spec fn descriptor_fault(
    inject: Seq<WireModel>,
    provide: Seq<WireModel>,
    config_schema: Result<JsonModel, Seq<char>>,
) -> Option<WasmErrorModel> {
    match config_schema {
        Err(message) => Some(
            WasmErrorModel::Descriptor { message: "invalid config schema JSON: "@ + message },
        ),
        Ok(schema) => if !is_schema(schema) {
            Some(
                WasmErrorModel::Descriptor {
                    message: "config schema is not a JSON Schema object or boolean: "@
                        + schema_refused(json_text(schema)),
                },
            )
        } else {
            match (services_read(inject, inject.len()), services_read(provide, provide.len())) {
                (Err(error), _) => Some(error),
                (_, Err(error)) => Some(error),
                _ => None,
            }
        },
    }
}

/// The descriptor that a guest's descriptor and its configuration schema come to.
pub open spec fn is_descriptor(
    r: Result<DynamicComponentDescriptor, WasmHostError>,
    descriptor: WireDescriptor,
    schema: Result<JsonModel, Seq<char>>,
) -> bool {
    let inject = views(descriptor.inject@);
    let provide = views(descriptor.provide@);
    match (r, descriptor_fault(inject, provide, schema)) {
        (Err(error), Some(expected)) => error@ == expected,
        (Ok(d), None) => {
            &&& d.name@ == descriptor.name@
            &&& d.version@ == descriptor.version@
            &&& d.kernel_abi@ == descriptor.wit_version@
            &&& views(d.injects@) == all_required(services_read(inject, inject.len())->Ok_0)
            &&& views(d.provides@) == services_read(provide, provide.len())->Ok_0
            &&& d.config_schema@ == schema->Ok_0
            &&& d.capabilities.wf()
            &&& d.capabilities@ == text_set(views(descriptor.capabilities@))
        },
        _ => false,
    }
}

/// Reads a guest's descriptor with the JSON bytes of its configuration schema.
pub fn descriptor_from_wit(descriptor: WireDescriptor, config_schema: &[u8]) -> (r: Result<
    DynamicComponentDescriptor,
    WasmHostError,
>)
    ensures
        is_descriptor(r, descriptor, parsed_json_bytes(config_schema@)),
{
    descriptor_with_schema(descriptor, parse_json_bytes(config_schema))
}

/// Reads a guest's descriptor. The configuration schema comes parsed, or with the parser's
/// message.
pub fn descriptor_with_schema(
    descriptor: WireDescriptor,
    config_schema: Result<Value, String>,
) -> (r: Result<DynamicComponentDescriptor, WasmHostError>)
    ensures
        is_descriptor(r, descriptor, read_model(config_schema)),
{
    let schema = match config_schema {
        Err(message) => {
            let mut text = "invalid config schema JSON: ".to_owned();
            text.append(message.as_str());
            return Err(WasmHostError::Descriptor { message: text });
        },
        Ok(schema) => schema,
    };
    let well_shaped = match &schema {
        Value::Object(_) => true,
        Value::Bool(_) => true,
        _ => false,
    };
    if !well_shaped {
        let mut text = "config schema is not a JSON Schema object or boolean: ".to_owned();
        text.append(schema_refusal(schema.to_json().as_str()).as_str());
        return Err(WasmHostError::Descriptor { message: text });
    }
    let inject = match read_services(descriptor.inject) {
        Err(error) => return Err(error),
        Ok(services) => services,
    };
    let provides = match read_services(descriptor.provide) {
        Err(error) => return Err(error),
        Ok(services) => services,
    };
    Ok(
        DynamicComponentDescriptor {
            name: descriptor.name,
            version: descriptor.version,
            kernel_abi: descriptor.wit_version,
            injects: require_all(inject),
            provides,
            config_schema: schema,
            capabilities: collect_texts(descriptor.capabilities),
        },
    )
}

/// The registrations a guest holds, by handle.
#[derive(Debug)]
pub struct GuestState<G> {
    pub owner: Option<(FiberId, EffectId)>,
    pub max_payload_bytes: usize,
    pub max_registrations: usize,
    pub next_registration: u32,
    pub registrations: Vec<(u32, G)>,
}

/// `i` holds the registration of a handle.
pub open spec fn handle_at<G>(registrations: Seq<(u32, G)>, handle: u32, i: int) -> bool {
    0 <= i < registrations.len() && registrations[i].0 == handle
}

/// Why a call context is refused: the guest has no owner, or another one.
pub open spec fn context_fault(
    owner: Option<(FiberId, EffectId)>,
    fiber_id: u64,
    effect_id: u64,
) -> Option<KernelErrorModel> {
    match owner {
        None => Some(KernelErrorModel::InactiveContext),
        Some((fiber, effect)) => if fiber.0 == fiber_id && effect.0 == effect_id {
            None
        } else {
            Some(
                KernelErrorModel::InvalidArgument("call context does not belong to this Store"@),
            )
        },
    }
}

/// Why a payload is refused: it is over the limit.
pub open spec fn payload_fault(limit: usize, length: nat) -> Option<KernelErrorModel> {
    if length <= limit {
        None
    } else {
        Some(
            KernelErrorModel::InvalidArgument(
                "payload is "@ + decimal(length) + " bytes, limit is "@ + decimal(limit as nat)
                    + " bytes"@,
            ),
        )
    }
}

/// Why a service identity is refused.
pub open spec fn service_fault(wire: WireModel) -> Option<KernelErrorModel> {
    match service_read(wire) {
        Ok(_) => None,
        Err(error) => Some(KernelErrorModel::InvalidArgument(wasm_error_text(error))),
    }
}

/// Why an event identity is refused.
pub open spec fn event_fault(wire: WireModel) -> Option<KernelErrorModel> {
    match event_read(wire) {
        Ok(_) => None,
        Err(error) => Some(error),
    }
}

/// The first of three faults.
pub open spec fn request_fault(
    first: Option<KernelErrorModel>,
    second: Option<KernelErrorModel>,
    third: Option<KernelErrorModel>,
) -> Option<KernelErrorModel> {
    if first is Some {
        first
    } else if second is Some {
        second
    } else {
        third
    }
}

/// How many bytes an event reply carries.
pub open spec fn reply_size(reply: EventReply) -> nat {
    match reply {
        EventReply::Continue(payload) => payload@.len(),
        EventReply::Break(payload) => payload@.len(),
    }
}

impl<G> GuestState<G> {
    /// Handles are handed out in order, so none occurs twice.
    pub open spec fn wf(&self) -> bool {
        &&& forall|i: int, j: int|
            0 <= i < j < self.registrations@.len() ==> (#[trigger] self.registrations@[i]).0 < (
            #[trigger] self.registrations@[j]).0
        &&& forall|i: int|
            0 <= i < self.registrations@.len() ==> (#[trigger] self.registrations@[i]).0
                < self.next_registration
    }

    pub fn new(
        owner: Option<(FiberId, EffectId)>,
        max_payload_bytes: usize,
        max_registrations: usize,
    ) -> (r: GuestState<G>)
        ensures
            r.wf(),
            r.owner == owner,
            r.max_payload_bytes == max_payload_bytes,
            r.max_registrations == max_registrations,
            r.next_registration == 1,
            r.registrations@.len() == 0,
    {
        GuestState {
            owner,
            max_payload_bytes,
            max_registrations,
            next_registration: 1,
            registrations: Vec::new(),
        }
    }

    /// A call has to name the fiber and effect this guest belongs to.
    pub fn validate_context(&self, fiber_id: u64, effect_id: u64) -> (r: Result<(), KernelError>)
        ensures
            match (r, context_fault(self.owner, fiber_id, effect_id)) {
                (Ok(_), None) => true,
                (Err(error), Some(expected)) => error@ == expected,
                _ => false,
            },
    {
        match self.owner {
            None => Err(KernelError::InactiveContext),
            Some((fiber, effect)) => if fiber.0 == fiber_id && effect.0 == effect_id {
                Ok(())
            } else {
                Err(
                    KernelError::InvalidArgument(
                        "call context does not belong to this Store".to_owned(),
                    ),
                )
            },
        }
    }

    /// Payloads a guest sends or gets stay within its limit.
    pub fn validate_payload(&self, payload: &[u8]) -> (r: Result<(), KernelError>)
        ensures
            match (r, payload_fault(self.max_payload_bytes, payload@.len())) {
                (Ok(_), None) => true,
                (Err(error), Some(expected)) => error@ == expected,
                _ => false,
            },
    {
        if payload.len() > self.max_payload_bytes {
            let mut message = "payload is ".to_owned();
            push_decimal(&mut message, payload.len() as u64);
            message.append(" bytes, limit is ");
            push_decimal(&mut message, self.max_payload_bytes as u64);
            message.append(" bytes");
            return Err(KernelError::InvalidArgument(message));
        }
        Ok(())
    }

    /// The service call a guest asks for: its context is checked first, the payload second and
    /// the service last.
    pub fn service_call(
        &self,
        fiber_id: u64,
        effect_id: u64,
        service: WireId,
        method: u32,
        payload: Vec<u8>,
    ) -> (r: Result<DynamicCall, KernelError>)
        ensures
            match (
                r,
                request_fault(
                    context_fault(self.owner, fiber_id, effect_id),
                    payload_fault(self.max_payload_bytes, payload@.len()),
                    service_fault(service@),
                ),
            ) {
                (Ok(call), None) => call.service@ == service_read(service@)->Ok_0 && call.method
                    == method && call.payload == payload,
                (Err(error), Some(expected)) => error@ == expected,
                _ => false,
            },
    {
        match self.validate_context(fiber_id, effect_id) {
            Err(error) => return Err(error),
            Ok(_) => {},
        }
        match self.validate_payload(payload.as_slice()) {
            Err(error) => return Err(error),
            Ok(_) => {},
        }
        match service_from_wit(service) {
            Err(error) => Err(KernelError::InvalidArgument(error.message())),
            Ok(service) => Ok(DynamicCall { service, method, payload }),
        }
    }

    /// What a guest gets back from a service call.
    pub fn service_reply(&self, reply: Result<Vec<u8>, CordisError>) -> (r: Result<
        Vec<u8>,
        KernelError,
    >)
        ensures
            match (reply, r) {
                (Err(error), Err(seen)) => seen@ == seen_by_guest(error@),
                (Ok(payload), _) => match (
                    r,
                    payload_fault(self.max_payload_bytes, payload@.len()),
                ) {
                    (Ok(given), None) => given == payload,
                    (Err(error), Some(expected)) => error@ == expected,
                    _ => false,
                },
                _ => false,
            },
    {
        match reply {
            Err(error) => Err(to_kernel_error(error)),
            Ok(payload) => match self.validate_payload(payload.as_slice()) {
                Err(error) => Err(error),
                Ok(_) => Ok(payload),
            },
        }
    }

    /// The registration of a service a guest provides.
    pub fn provide_request(&self, fiber_id: u64, effect_id: u64, service: WireId) -> (r: Result<
        RegistrationRequest,
        KernelError,
    >)
        ensures
            match (
                r,
                request_fault(
                    context_fault(self.owner, fiber_id, effect_id),
                    None,
                    service_fault(service@),
                ),
            ) {
                (Ok(request), None) => request matches RegistrationRequest::Provide(id) && id@
                    == service_read(service@)->Ok_0,
                (Err(error), Some(expected)) => error@ == expected,
                _ => false,
            },
    {
        match self.validate_context(fiber_id, effect_id) {
            Err(error) => return Err(error),
            Ok(_) => {},
        }
        match service_from_wit(service) {
            Err(error) => Err(KernelError::InvalidArgument(error.message())),
            Ok(service) => Ok(RegistrationRequest::Provide(service)),
        }
    }

    /// The registration of an event listener.
    pub fn listen_request(
        &self,
        fiber_id: u64,
        effect_id: u64,
        event: WireId,
        listener_id: u64,
        mode: EventMode,
    ) -> (r: Result<RegistrationRequest, KernelError>)
        ensures
            match (
                r,
                request_fault(
                    context_fault(self.owner, fiber_id, effect_id),
                    None,
                    event_fault(event@),
                ),
            ) {
                (Ok(request), None) => request matches RegistrationRequest::Listen {
                    event: id,
                    listener_id: listener,
                    mode: chosen,
                } && id@ == event_read(event@)->Ok_0 && listener == listener_id && chosen == mode,
                (Err(error), Some(expected)) => error@ == expected,
                _ => false,
            },
    {
        match self.validate_context(fiber_id, effect_id) {
            Err(error) => return Err(error),
            Ok(_) => {},
        }
        match event_from_wit(event) {
            Err(error) => Err(error),
            Ok(event) => Ok(RegistrationRequest::Listen { event, listener_id, mode }),
        }
    }

    /// The event call a guest asks for, checked like a service call.
    pub fn event_call(
        &self,
        fiber_id: u64,
        effect_id: u64,
        event: WireId,
        listener_id: u64,
        mode: EventMode,
        payload: Vec<u8>,
        next_token: Option<u64>,
    ) -> (r: Result<EventCall, KernelError>)
        ensures
            match (
                r,
                request_fault(
                    context_fault(self.owner, fiber_id, effect_id),
                    payload_fault(self.max_payload_bytes, payload@.len()),
                    event_fault(event@),
                ),
            ) {
                (Ok(call), None) => {
                    &&& call.event@ == event_read(event@)->Ok_0
                    &&& call.listener_id == listener_id
                    &&& call.mode == mode
                    &&& call.payload == payload
                    &&& call.next_token == next_token
                },
                (Err(error), Some(expected)) => error@ == expected,
                _ => false,
            },
    {
        match self.validate_context(fiber_id, effect_id) {
            Err(error) => return Err(error),
            Ok(_) => {},
        }
        match self.validate_payload(payload.as_slice()) {
            Err(error) => return Err(error),
            Ok(_) => {},
        }
        match event_from_wit(event) {
            Err(error) => Err(error),
            Ok(event) => Ok(EventCall { event, listener_id, mode, payload, next_token }),
        }
    }

    /// What a guest gets back from an event call.
    pub fn event_reply(&self, reply: Result<EventReply, CordisError>) -> (r: Result<
        EventReply,
        KernelError,
    >)
        ensures
            match (reply, r) {
                (Err(error), Err(seen)) => seen@ == seen_by_guest(error@),
                (Ok(answer), _) => match (
                    r,
                    payload_fault(self.max_payload_bytes, reply_size(answer)),
                ) {
                    (Ok(given), None) => given == answer,
                    (Err(error), Some(expected)) => error@ == expected,
                    _ => false,
                },
                _ => false,
            },
    {
        match reply {
            Err(error) => Err(to_kernel_error(error)),
            Ok(answer) => match self.validate_payload(answer.payload().as_slice()) {
                Err(error) => Err(error),
                Ok(_) => Ok(answer),
            },
        }
    }

    /// Whether the guest may register anything more.
    pub fn check_registration_limit(&self) -> (r: Result<(), KernelError>)
        ensures
            match r {
                Ok(_) => self.registrations@.len() < self.max_registrations,
                Err(error) => self.registrations@.len() >= self.max_registrations && error@
                    == KernelErrorModel::CapabilityDenied(
                    "registration limit "@ + decimal(self.max_registrations as nat)
                        + " exceeded"@,
                ),
            },
    {
        if self.registrations.len() >= self.max_registrations {
            let mut message = "registration limit ".to_owned();
            push_decimal(&mut message, self.max_registrations as u64);
            message.append(" exceeded");
            return Err(KernelError::CapabilityDenied(message));
        }
        Ok(())
    }

    /// Keeps a registration and returns its handle. Handles are never reused.
    pub fn add_registration(&mut self, guard: G) -> (r: Result<u32, KernelError>)
        requires
            old(self).wf(),
        ensures
            final(self).wf(),
            final(self).owner == old(self).owner,
            final(self).max_payload_bytes == old(self).max_payload_bytes,
            final(self).max_registrations == old(self).max_registrations,
            match r {
                Ok(handle) => {
                    &&& old(self).next_registration < u32::MAX
                    &&& handle == old(self).next_registration
                    &&& final(self).next_registration == handle + 1
                    &&& final(self).registrations@ == old(self).registrations@.push(
                        (handle, guard),
                    )
                },
                Err(error) => {
                    &&& old(self).next_registration == u32::MAX
                    &&& error@ == KernelErrorModel::Internal(
                        "registration identifier space exhausted"@,
                    )
                    &&& *final(self) == *old(self)
                },
            },
    {
        if self.next_registration == u32::MAX {
            return Err(
                KernelError::Internal("registration identifier space exhausted".to_owned()),
            );
        }
        let handle: u32 = self.next_registration;
        self.next_registration = handle + 1;
        self.registrations.push((handle, guard));
        Ok(handle)
    }

    /// Forgets every registration. Handles are still not reused.
    pub fn clear_registrations(&mut self)
        requires
            old(self).wf(),
        ensures
            final(self).wf(),
            final(self).registrations@.len() == 0,
            final(self).owner == old(self).owner,
            final(self).max_payload_bytes == old(self).max_payload_bytes,
            final(self).max_registrations == old(self).max_registrations,
            final(self).next_registration == old(self).next_registration,
    {
        self.registrations = Vec::new();
    }

    /// Takes the registration of a handle out.
    pub fn remove_registration(&mut self, handle: u32) -> (r: Option<G>)
        requires
            old(self).wf(),
        ensures
            final(self).wf(),
            final(self).owner == old(self).owner,
            final(self).max_payload_bytes == old(self).max_payload_bytes,
            final(self).max_registrations == old(self).max_registrations,
            final(self).next_registration == old(self).next_registration,
            match r {
                Some(guard) => exists|i: int| #[trigger]
                    handle_at(old(self).registrations@, handle, i) && guard
                        == old(self).registrations@[i].1 && final(self).registrations@
                        == old(self).registrations@.remove(i),
                None => *final(self) == *old(self) && forall|i: int| !#[trigger] handle_at(
                    old(self).registrations@,
                    handle,
                    i,
                ),
            },
    {
        let ghost before = self.registrations@;
        let mut i: usize = 0;
        while i < self.registrations.len()
            invariant
                *self == *old(self),
                self.wf(),
                before == self.registrations@,
                i <= self.registrations.len(),
                forall|k: int| 0 <= k < i ==> !#[trigger] handle_at(before, handle, k),
            decreases self.registrations.len() - i,
        {
            if self.registrations[i].0 == handle {
                proof {
                    assert(handle_at(before, handle, i as int));
                }
                let (_, guard) = self.registrations.remove(i);
                proof {
                    let after = self.registrations@;
                    assert forall|a: int, b: int| 0 <= a < b < after.len() implies (
                    #[trigger] after[a]).0 < (#[trigger] after[b]).0 by {
                        let p = if a < i {
                            a
                        } else {
                            a + 1
                        };
                        let q = if b < i {
                            b
                        } else {
                            b + 1
                        };
                        assert(after[a] == before[p] && after[b] == before[q]);
                    }
                    assert forall|a: int| 0 <= a < after.len() implies (#[trigger] after[a]).0
                        < self.next_registration by {
                        let p = if a < i {
                            a
                        } else {
                            a + 1
                        };
                        assert(after[a] == before[p]);
                    }
                }
                return Some(guard);
            }
            proof {
                assert(!handle_at(before, handle, i as int));
            }
            i = i + 1;
        }
        None
    }
}

/// Host state of one store together with its registration budget.
#[derive(Debug)]
pub struct StoreState<T> {
    pub host: T,
    pub fuel_per_call: u64,
    pub epoch_deadline_ticks: u64,
    pub active_registrations: usize,
    pub max_registrations: usize,
}

impl<T> StoreState<T> {
    /// The budget is respected.
    pub open spec fn wf(&self) -> bool {
        self.active_registrations <= self.max_registrations
    }

    /// Fresh state with the budgets of a component.
    pub fn new(host: T, limits: &WasmLimits) -> (r: StoreState<T>)
        ensures
            r.wf(),
            r == (StoreState {
                host,
                fuel_per_call: limits.fuel_per_call,
                epoch_deadline_ticks: limits.epoch_deadline_ticks,
                active_registrations: 0,
                max_registrations: limits.max_registrations,
            }),
    {
        StoreState {
            host,
            fuel_per_call: limits.fuel_per_call,
            epoch_deadline_ticks: limits.epoch_deadline_ticks,
            active_registrations: 0,
            max_registrations: limits.max_registrations,
        }
    }

    pub fn host(&self) -> (r: &T)
        ensures
            *r == self.host,
    {
        &self.host
    }

    pub fn active_registrations(&self) -> (r: usize)
        ensures
            r == self.active_registrations,
    {
        self.active_registrations
    }

    /// Reserves one registration before it is exposed to a guest.
    pub fn reserve_registration(&mut self) -> (r: Result<(), WasmHostError>)
        requires
            old(self).wf(),
        ensures
            final(self).wf(),
            match r {
                Ok(_) => old(self).active_registrations < old(self).max_registrations
                    && *final(self) == (StoreState {
                    active_registrations: (old(self).active_registrations + 1) as usize,
                    ..*old(self)
                }),
                Err(error) => old(self).active_registrations == old(self).max_registrations
                    && error@ == (WasmErrorModel::RegistrationLimitExceeded {
                    limit: old(self).max_registrations,
                }) && *final(self) == *old(self),
            },
    {
        if self.active_registrations == self.max_registrations {
            return Err(
                WasmHostError::RegistrationLimitExceeded { limit: self.max_registrations },
            );
        }
        self.active_registrations = self.active_registrations + 1;
        Ok(())
    }

    /// Releases one reserved registration.
    pub fn release_registration(&mut self) -> (r: Result<(), WasmHostError>)
        requires
            old(self).wf(),
        ensures
            final(self).wf(),
            match r {
                Ok(_) => old(self).active_registrations > 0 && *final(self) == (StoreState {
                    active_registrations: (old(self).active_registrations - 1) as usize,
                    ..*old(self)
                }),
                Err(error) => old(self).active_registrations == 0 && error@
                    == WasmErrorModel::RegistrationCountUnderflow && *final(self) == *old(self),
            },
    {
        if self.active_registrations == 0 {
            return Err(WasmHostError::RegistrationCountUnderflow);
        }
        self.active_registrations = self.active_registrations - 1;
        Ok(())
    }
}

/// Which fiber answers which listener.
#[derive(Debug)]
pub struct ListenerRoute {
    pub event: EventId,
    pub listener: u64,
    pub owner: FiberId,
}

/// The key of a route.
pub open spec fn route_key(route: ListenerRoute) -> (EventIdModel, u64) {
    (route.event@, route.listener)
}

/// All routes of an application.
#[derive(Debug)]
pub struct ListenerRoutes {
    pub routes: Vec<ListenerRoute>,
}

/// No event and listener are routed twice.
pub open spec fn routes_unique(routes: Seq<ListenerRoute>) -> bool {
    forall|i: int, j: int|
        0 <= i < j < routes.len() ==> route_key(#[trigger] routes[i]) != route_key(
            #[trigger] routes[j],
        )
}

/// `i` routes an event and listener.
pub open spec fn route_at(routes: Seq<ListenerRoute>, key: (EventIdModel, u64), i: int) -> bool {
    0 <= i < routes.len() && route_key(routes[i]) == key
}

/// An event and listener are routed.
pub open spec fn is_routed(routes: Seq<ListenerRoute>, key: (EventIdModel, u64)) -> bool {
    exists|i: int| #[trigger] route_at(routes, key, i)
}

/// The first `n` routes without those of `owner`.
pub open spec fn routes_without(routes: Seq<ListenerRoute>, owner: FiberId, n: nat) -> Seq<
    (EventIdModel, u64, FiberId),
>
    decreases n,
{
    if n == 0 {
        Seq::empty()
    } else {
        let before = routes_without(routes, owner, (n - 1) as nat);
        let r = routes[n - 1];
        if r.owner == owner {
            before
        } else {
            before.push((r.event@, r.listener, r.owner))
        }
    }
}

/// Routes by content.
pub open spec fn route_models(routes: Seq<ListenerRoute>) -> Seq<(EventIdModel, u64, FiberId)> {
    Seq::new(routes.len(), |i: int| (routes[i].event@, routes[i].listener, routes[i].owner))
}

/// The error text about a listener.
pub open spec fn listener_message(listener: u64, suffix: Seq<char>) -> Seq<char> {
    "listener "@ + decimal(listener as nat) + suffix
}

fn listener_error(event: &EventId, listener: u64, suffix: &str) -> (r: CordisError)
    ensures
        r@ == (ErrorModel::ComponentFailed {
            component: event_text(event@),
            message: listener_message(listener, suffix@),
        }),
{
    let mut message = "listener ".to_owned();
    push_decimal(&mut message, listener);
    message.append(suffix);
    CordisError::ComponentFailed { component: event.text(), message }
}

impl ListenerRoutes {
    pub fn new() -> (r: ListenerRoutes)
        ensures
            routes_unique(r.routes@),
            r.routes@.len() == 0,
    {
        ListenerRoutes { routes: Vec::new() }
    }

    fn find(&self, event: &EventId, listener: u64) -> (r: Option<usize>)
        ensures
            match r {
                Some(i) => route_at(self.routes@, (event@, listener), i as int),
                None => !is_routed(self.routes@, (event@, listener)),
            },
    {
        let mut i: usize = 0;
        while i < self.routes.len()
            invariant
                i <= self.routes.len(),
                forall|k: int|
                    0 <= k < i ==> !#[trigger] route_at(self.routes@, (event@, listener), k),
            decreases self.routes.len() - i,
        {
            if self.routes[i].listener == listener && self.routes[i].event.same(event) {
                proof {
                    assert(route_at(self.routes@, (event@, listener), i as int));
                }
                return Some(i);
            }
            proof {
                assert(!route_at(self.routes@, (event@, listener), i as int));
            }
            i = i + 1;
        }
        None
    }

    /// Routes a listener to a fiber. An event and listener have one route.
    pub fn register(&mut self, event: EventId, listener: u64, owner: FiberId) -> (r: Result<
        (),
        CordisError,
    >)
        requires
            routes_unique(old(self).routes@),
        ensures
            routes_unique(final(self).routes@),
            match r {
                Ok(_) => !is_routed(old(self).routes@, (event@, listener)) && final(self).routes@
                    == old(self).routes@.push(ListenerRoute { event, listener, owner }),
                Err(error) => is_routed(old(self).routes@, (event@, listener))
                    && final(self).routes@ == old(self).routes@ && error@ == (
                ErrorModel::ComponentFailed {
                    component: event_text(event@),
                    message: listener_message(listener, " is already registered"@),
                }),
            },
    {
        match self.find(&event, listener) {
            Some(_) => Err(listener_error(&event, listener, " is already registered")),
            None => {
                let ghost before = self.routes@;
                let ghost key = (event@, listener);
                self.routes.push(ListenerRoute { event, listener, owner });
                proof {
                    let after = self.routes@;
                    assert forall|a: int, b: int| 0 <= a < b < after.len() implies route_key(
                        #[trigger] after[a],
                    ) != route_key(#[trigger] after[b]) by {
                        assert(after[a] == before[a]);
                        if b < before.len() {
                            assert(after[b] == before[b]);
                        } else if route_key(after[a]) == key {
                            assert(route_at(before, key, a));
                        }
                    }
                }
                Ok(())
            },
        }
    }

    /// The fiber that answers a listener.
    pub fn owner(&self, event: &EventId, listener: u64) -> (r: Result<FiberId, CordisError>)
        ensures
            match r {
                Ok(owner) => exists|i: int| #[trigger]
                    route_at(self.routes@, (event@, listener), i) && self.routes@[i].owner
                        == owner,
                Err(error) => !is_routed(self.routes@, (event@, listener)) && error@ == (
                ErrorModel::ComponentFailed {
                    component: event_text(event@),
                    message: listener_message(listener, " is not registered"@),
                }),
            },
    {
        match self.find(event, listener) {
            Some(i) => Ok(self.routes[i].owner),
            None => Err(listener_error(event, listener, " is not registered")),
        }
    }

    /// Drops every route to a fiber.
    pub fn unbind(&mut self, fiber: FiberId)
        requires
            routes_unique(old(self).routes@),
        ensures
            routes_unique(final(self).routes@),
            route_models(final(self).routes@) == routes_without(
                old(self).routes@,
                fiber,
                old(self).routes@.len(),
            ),
    {
        let ghost before = self.routes@;
        let mut kept: Vec<ListenerRoute> = Vec::new();
        let mut i: usize = 0;
        proof {
            assert(route_models(kept@) =~= Seq::empty());
        }
        while i < self.routes.len()
            invariant
                before == self.routes@,
                *self == *old(self),
                routes_unique(before),
                i <= before.len(),
                route_models(kept@) == routes_without(before, fiber, i as nat),
                routes_unique(kept@),
                forall|k: int|
                    0 <= k < kept@.len() ==> exists|j: int|
                        0 <= j < i && route_key(#[trigger] before[j]) == route_key(
                            #[trigger] kept@[k],
                        ),
            decreases before.len() - i,
        {
            let route = &self.routes[i];
            if route.owner.0 != fiber.0 {
                let ghost old_kept = kept@;
                let ghost old_models = route_models(kept@);
                kept.push(
                    ListenerRoute {
                        event: route.event.duplicate(),
                        listener: route.listener,
                        owner: route.owner,
                    },
                );
                proof {
                    assert(route_models(kept@) =~= old_models.push(
                        (before[i as int].event@, before[i as int].listener, before[i as int].owner),
                    ));
                    assert forall|a: int, b: int| 0 <= a < b < kept@.len() implies route_key(
                        #[trigger] kept@[a],
                    ) != route_key(#[trigger] kept@[b]) by {
                        assert(kept@[a] == old_kept[a]);
                        if b < old_kept.len() {
                            assert(kept@[b] == old_kept[b]);
                        } else {
                            let j = choose|j: int|
                                0 <= j < i && route_key(#[trigger] before[j]) == route_key(
                                    old_kept[a],
                                );
                            assert(route_key(before[j]) != route_key(before[i as int]));
                        }
                    }
                    assert forall|k: int| 0 <= k < kept@.len() implies exists|j: int|
                        0 <= j < i + 1 && route_key(#[trigger] before[j]) == route_key(
                            #[trigger] kept@[k],
                        ) by {
                        if k < old_kept.len() {
                            assert(kept@[k] == old_kept[k]);
                            let j = choose|j: int|
                                0 <= j < i && route_key(#[trigger] before[j]) == route_key(
                                    old_kept[k],
                                );
                            assert(route_key(before[j]) == route_key(kept@[k]));
                        } else {
                            assert(route_key(before[i as int]) == route_key(kept@[k]));
                        }
                    }
                }
            }
            i = i + 1;
        }
        self.routes = kept;
    }

    /// Drops one route.
    pub fn remove(&mut self, event: &EventId, listener: u64)
        requires
            routes_unique(old(self).routes@),
        ensures
            routes_unique(final(self).routes@),
            !is_routed(final(self).routes@, (event@, listener)),
            final(self).routes@ == old(self).routes@ || exists|i: int| #[trigger]
                route_at(old(self).routes@, (event@, listener), i) && final(self).routes@
                    == old(self).routes@.remove(i),
    {
        match self.find(event, listener) {
            None => {},
            Some(i) => {
                let ghost before = self.routes@;
                let ghost key = (event@, listener);
                let _ = self.routes.remove(i);
                proof {
                    let after = self.routes@;
                    assert forall|a: int, b: int| 0 <= a < b < after.len() implies route_key(
                        #[trigger] after[a],
                    ) != route_key(#[trigger] after[b]) by {
                        let p = if a < i {
                            a
                        } else {
                            a + 1
                        };
                        let q = if b < i {
                            b
                        } else {
                            b + 1
                        };
                        assert(after[a] == before[p] && after[b] == before[q]);
                    }
                    assert forall|k: int| !#[trigger] route_at(after, key, k) by {
                        if 0 <= k < after.len() {
                            let p = if k < i {
                                k
                            } else {
                                k + 1
                            };
                            assert(after[k] == before[p]);
                            if p < i {
                                assert(route_key(before[p]) != route_key(before[i as int]));
                            } else {
                                assert(route_key(before[i as int]) != route_key(before[p]));
                            }
                        }
                    }
                }
            },
        }
    }
}

/// What to do about a call to a fiber.
#[derive(Debug, PartialEq, Eq)]
pub enum RouteStep {
    /// The fiber can be called.
    Ready,
    /// It may still come up.
    Wait,
    /// It never will.
    Fail(CordisError),
}

/// Decides about a call to a fiber: one without a route fails once it is gone, failed or
/// disposed, and is waited for otherwise.
pub fn route_step(fiber: FiberId, bound: bool, state: Option<FiberState>) -> (r: RouteStep)
    ensures
        ({
            let hopeless = match state {
                None => true,
                Some(state) => state is Failed || state is Disposed,
            };
            if bound {
                r is Ready
            } else if !hopeless {
                r is Wait
            } else {
                r matches RouteStep::Fail(error) && error@ == (ErrorModel::ComponentFailed {
                    component: "fiber:"@ + decimal(fiber.0 as nat),
                    message: "provider has no dynamic route"@,
                })
            }
        }),
{
    if bound {
        return RouteStep::Ready;
    }
    let hopeless = match state {
        None => true,
        Some(FiberState::Failed) => true,
        Some(FiberState::Disposed) => true,
        Some(_) => false,
    };
    if hopeless {
        let mut component = "fiber:".to_owned();
        push_decimal(&mut component, fiber.0);
        RouteStep::Fail(
            CordisError::ComponentFailed {
                component,
                message: "provider has no dynamic route".to_owned(),
            },
        )
    } else {
        RouteStep::Wait
    }
}

/// Cleanup always runs when an instance goes down; the guest's own failure is reported first.
pub fn deactivation_outcome(
    guest: Result<(), CordisError>,
    cleanup: Result<(), String>,
) -> (r: Result<(), CordisError>)
    ensures
        match (guest, cleanup) {
            (Err(error), _) => r == Err::<(), CordisError>(error),
            (Ok(_), Ok(_)) => r is Ok,
            (Ok(_), Err(message)) => r matches Err(error) && error@ == (
            ErrorModel::DisposerFailed { message: message@ }),
        },
{
    match guest {
        Err(error) => Err(error),
        Ok(_) => match cleanup {
            Ok(_) => Ok(()),
            Err(message) => Err(CordisError::DisposerFailed { message }),
        },
    }
}

/// Withdrawing a slot during cleanup succeeds when the slot is already gone.
pub fn withdraw_outcome(result: Result<(), CordisError>) -> (r: Result<(), CordisError>)
    ensures
        match result {
            Ok(_) => r is Ok,
            Err(error) => if error is ProviderNotFound {
                r is Ok
            } else {
                r == Err::<(), CordisError>(error)
            },
        },
{
    match result {
        Ok(_) => Ok(()),
        Err(CordisError::ProviderNotFound { .. }) => Ok(()),
        Err(error) => Err(error),
    }
}

} // verus!
