//! Budgets and policies for WebAssembly components.
use crate::capability::{PreopenModel, WasiCapabilities};
use crate::dynamic::DynamicComponentDescriptor;
use crate::order::TextSet;
use crate::search::{first_index, first_index_found, first_index_is_first};
use crate::text::{group_views, starts_with, views};
use crate::wasm_error::{WasmErrorModel, WasmHostError};
use vstd::prelude::*;

verus! {

broadcast use group_views;

/// Per-component resource and execution budgets.
#[derive(Clone, Debug, PartialEq, Eq)]
pub struct WasmLimits {
    pub fuel_per_call: u64,
    pub epoch_deadline_ticks: u64,
    pub max_memory_bytes: usize,
    pub max_table_elements: usize,
    pub max_instances: usize,
    pub max_tables: usize,
    pub max_memories: usize,
    pub max_registrations: usize,
    pub max_payload_bytes: usize,
}

impl Default for WasmLimits {
    fn default() -> (r: WasmLimits)
        ensures
            r == (WasmLimits {
                fuel_per_call: 10_000_000,
                epoch_deadline_ticks: 1,
                max_memory_bytes: 67_108_864,
                max_table_elements: 10_000,
                max_instances: 32,
                max_tables: 32,
                max_memories: 32,
                max_registrations: 10_000,
                max_payload_bytes: 1_048_576,
            }),
    {
        WasmLimits {
            fuel_per_call: 10_000_000,
            epoch_deadline_ticks: 1,
            max_memory_bytes: 64 * 1024 * 1024,
            max_table_elements: 10_000,
            max_instances: 32,
            max_tables: 32,
            max_memories: 32,
            max_registrations: 10_000,
            max_payload_bytes: 1024 * 1024,
        }
    }
}

/// What a component may be and do before it becomes a candidate.
#[derive(Debug)]
pub struct ArtifactPolicy {
    pub kernel_abi: String,
    pub allowed_capabilities: TextSet,
    pub wasi: WasiCapabilities,
}

impl Default for ArtifactPolicy {
    fn default() -> (r: ArtifactPolicy)
        ensures
            r.kernel_abi@ == "0.1"@,
            r.allowed_capabilities.wf(),
            r.allowed_capabilities@ == Set::<Seq<char>>::empty(),
            r.wasi@ == Seq::<PreopenModel>::empty(),
    {
        ArtifactPolicy {
            kernel_abi: "0.1".to_owned(),
            allowed_capabilities: TextSet::new(),
            wasi: WasiCapabilities::deny_all(),
        }
    }
}

/// A requested capability that is not allowed.
pub open spec fn denied(requested: Seq<Seq<char>>, allowed: Set<Seq<char>>) -> spec_fn(int) -> bool {
    |i: int| !allowed.contains(requested[i])
}

/// Why a component's manifest is refused: another kernel interface, or the first requested
/// capability, in text order, that is not allowed.
pub open spec fn descriptor_error(
    kernel_abi: Seq<char>,
    requested: Seq<Seq<char>>,
    policy: ArtifactPolicy,
) -> Option<WasmErrorModel> {
    if kernel_abi != policy.kernel_abi@ {
        Some(
            WasmErrorModel::KernelAbiMismatch { expected: policy.kernel_abi@, actual: kernel_abi },
        )
    } else {
        match first_index(requested.len(), denied(requested, policy.allowed_capabilities@)) {
            Some(i) => Some(WasmErrorModel::CapabilityDenied { capability: requested[i] }),
            None => None,
        }
    }
}

/// Checks a manifest against a policy.
pub fn validate_descriptor(descriptor: &DynamicComponentDescriptor, policy: &ArtifactPolicy) -> (r:
    Result<(), WasmHostError>)
    requires
        policy.allowed_capabilities.wf(),
    ensures
        match (
            r,
            descriptor_error(
                descriptor.kernel_abi@,
                views(descriptor.capabilities.items@),
                *policy,
            ),
        ) {
            (Ok(_), None) => true,
            (Err(error), Some(expected)) => error@ == expected,
            _ => false,
        },
{
    if descriptor.kernel_abi != policy.kernel_abi {
        return Err(
            WasmHostError::KernelAbiMismatch {
                expected: policy.kernel_abi.clone(),
                actual: descriptor.kernel_abi.clone(),
            },
        );
    }
    let ghost requested = views(descriptor.capabilities.items@);
    let ghost p = denied(requested, policy.allowed_capabilities@);
    let mut i: usize = 0;
    while i < descriptor.capabilities.items.len()
        invariant
            policy.allowed_capabilities.wf(),
            requested == views(descriptor.capabilities.items@),
            p == denied(requested, policy.allowed_capabilities@),
            i <= descriptor.capabilities.items.len(),
            forall|k: int| 0 <= k < i ==> !#[trigger] p(k),
            descriptor.kernel_abi@ == policy.kernel_abi@,
        decreases descriptor.capabilities.items.len() - i,
    {
        let capability = &descriptor.capabilities.items[i];
        if !policy.allowed_capabilities.contains(capability.as_str()) {
            proof {
                assert(p(i as int));
                first_index_found(requested.len(), p, i as int);
            }
            return Err(WasmHostError::CapabilityDenied { capability: capability.clone() });
        }
        proof {
            assert(!p(i as int));
        }
        i = i + 1;
    }
    proof {
        first_index_is_first(requested.len(), p);
    }
    Ok(())
}

/// The capability a WASI import stands for. Stream, console and monotonic clock access is
/// always granted; imports that are not WASI need none.
pub open spec fn capability_of(import: Seq<char>) -> Option<Seq<char>> {
    if "wasi:io/"@.is_prefix_of(import) || "wasi:cli/"@.is_prefix_of(import)
        || "wasi:clocks/monotonic-clock"@.is_prefix_of(import) {
        None
    } else if "wasi:filesystem/"@.is_prefix_of(import) {
        Some("filesystem"@)
    } else if "wasi:sockets/"@.is_prefix_of(import) || "wasi:http/"@.is_prefix_of(import) {
        Some("network"@)
    } else if "wasi:random/"@.is_prefix_of(import) {
        Some("random"@)
    } else if "wasi:clocks/wall-clock"@.is_prefix_of(import) {
        Some("clock:wall"@)
    } else if "wasi:"@.is_prefix_of(import) {
        Some(import)
    } else {
        None
    }
}

pub fn capability_for_wasi_import(import: &str) -> (r: Option<&str>)
    ensures
        match (r, capability_of(import@)) {
            (Some(capability), Some(expected)) => capability@ == expected,
            (None, None) => true,
            _ => false,
        },
{
    if starts_with(import, "wasi:io/") || starts_with(import, "wasi:cli/") || starts_with(
        import,
        "wasi:clocks/monotonic-clock",
    ) {
        None
    } else if starts_with(import, "wasi:filesystem/") {
        Some("filesystem")
    } else if starts_with(import, "wasi:sockets/") || starts_with(import, "wasi:http/") {
        Some("network")
    } else if starts_with(import, "wasi:random/") {
        Some("random")
    } else if starts_with(import, "wasi:clocks/wall-clock") {
        Some("clock:wall")
    } else if starts_with(import, "wasi:") {
        Some(import)
    } else {
        None
    }
}

/// What is wrong with one import: its capability was not declared, or is not allowed.
pub open spec fn import_error(
    import: Seq<char>,
    declared: Set<Seq<char>>,
    allowed: Set<Seq<char>>,
) -> Option<WasmErrorModel> {
    match capability_of(import) {
        None => None,
        Some(capability) => if !declared.contains(capability) {
            Some(
                WasmErrorModel::Descriptor {
                    message: "WASI import `"@ + import + "` requires undeclared capability `"@
                        + capability + "`"@,
                },
            )
        } else if !allowed.contains(capability) {
            Some(WasmErrorModel::CapabilityDenied { capability })
        } else {
            None
        },
    }
}

/// An import that is refused.
pub open spec fn import_refused(
    imports: Seq<Seq<char>>,
    declared: Set<Seq<char>>,
    allowed: Set<Seq<char>>,
) -> spec_fn(int) -> bool {
    |i: int| import_error(imports[i], declared, allowed) is Some
}

/// Checks the imports of a compiled component against its manifest and the policy.
pub fn validate_wasi_imports(
    imports: &Vec<String>,
    descriptor: &DynamicComponentDescriptor,
    policy: &ArtifactPolicy,
) -> (r: Result<(), WasmHostError>)
    requires
        descriptor.capabilities.wf(),
        policy.allowed_capabilities.wf(),
    ensures
        ({
            let declared = descriptor.capabilities@;
            let allowed = policy.allowed_capabilities@;
            match (
                r,
                first_index(imports@.len(), import_refused(views(imports@), declared, allowed)),
            ) {
                (Ok(_), None) => true,
                (Err(error), Some(i)) => import_error(views(imports@)[i], declared, allowed)
                    == Some(error@),
                _ => false,
            }
        }),
{
    let ghost declared = descriptor.capabilities@;
    let ghost allowed = policy.allowed_capabilities@;
    let ghost p = import_refused(views(imports@), declared, allowed);
    let mut i: usize = 0;
    while i < imports.len()
        invariant
            descriptor.capabilities.wf(),
            policy.allowed_capabilities.wf(),
            declared == descriptor.capabilities@,
            allowed == policy.allowed_capabilities@,
            p == import_refused(views(imports@), declared, allowed),
            i <= imports.len(),
            forall|k: int| 0 <= k < i ==> !#[trigger] p(k),
        decreases imports.len() - i,
    {
        let import = imports[i].as_str();
        match capability_for_wasi_import(import) {
            None => {},
            Some(capability) => {
                if !descriptor.capabilities.contains(capability) {
                    proof {
                        assert(p(i as int));
                        first_index_found(imports@.len(), p, i as int);
                    }
                    let mut message = "WASI import `".to_owned();
                    message.append(import);
                    message.append("` requires undeclared capability `");
                    message.append(capability);
                    message.append("`");
                    return Err(WasmHostError::Descriptor { message });
                }
                if !policy.allowed_capabilities.contains(capability) {
                    proof {
                        assert(p(i as int));
                        first_index_found(imports@.len(), p, i as int);
                    }
                    return Err(
                        WasmHostError::CapabilityDenied { capability: capability.to_owned() },
                    );
                }
            },
        }
        proof {
            assert(!p(i as int));
        }
        i = i + 1;
    }
    proof {
        first_index_is_first(imports@.len(), p);
    }
    Ok(())
}

/// A component without grants cannot have any sensitive import.
pub proof fn default_policy_refuses_sensitive_imports(
    import: Seq<char>,
    declared: Set<Seq<char>>,
)
    requires
        capability_of(import) is Some,
    ensures
        import_error(import, declared, Set::empty()) is Some,
{
}

} // verus!
