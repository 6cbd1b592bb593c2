//! Errors of the WebAssembly host.
use crate::text::{decimal, push_decimal};
use vstd::prelude::*;

verus! {

/// Errors of the WebAssembly host.
#[derive(Clone, Debug, PartialEq, Eq)]
pub enum WasmHostError {
    Engine { message: String },
    RegistrationLimitExceeded { limit: usize },
    RegistrationCountUnderflow,
    Descriptor { message: String },
    KernelAbiMismatch { expected: String, actual: String },
    CapabilityDenied { capability: String },
    Capability { message: String },
}

/// The content of a host error.
pub enum WasmErrorModel {
    Engine { message: Seq<char> },
    RegistrationLimitExceeded { limit: usize },
    RegistrationCountUnderflow,
    Descriptor { message: Seq<char> },
    KernelAbiMismatch { expected: Seq<char>, actual: Seq<char> },
    CapabilityDenied { capability: Seq<char> },
    Capability { message: Seq<char> },
}

impl View for WasmHostError {
    type V = WasmErrorModel;

    open spec fn view(&self) -> WasmErrorModel {
        match self {
            WasmHostError::Engine { message } => WasmErrorModel::Engine { message: message@ },
            WasmHostError::RegistrationLimitExceeded { limit } =>
                WasmErrorModel::RegistrationLimitExceeded { limit: *limit },
            WasmHostError::RegistrationCountUnderflow => WasmErrorModel::RegistrationCountUnderflow,
            WasmHostError::Descriptor { message } => WasmErrorModel::Descriptor {
                message: message@,
            },
            WasmHostError::KernelAbiMismatch { expected, actual } =>
                WasmErrorModel::KernelAbiMismatch { expected: expected@, actual: actual@ },
            WasmHostError::CapabilityDenied { capability } => WasmErrorModel::CapabilityDenied {
                capability: capability@,
            },
            WasmHostError::Capability { message } => WasmErrorModel::Capability {
                message: message@,
            },
        }
    }
}

/// The message a host error is shown with.
pub open spec fn wasm_error_text(e: WasmErrorModel) -> Seq<char> {
    match e {
        WasmErrorModel::Engine { message } => "wasmtime component error: "@ + message,
        WasmErrorModel::RegistrationLimitExceeded { limit } => "guest registration limit "@
            + decimal(limit as nat) + " exceeded"@,
        WasmErrorModel::RegistrationCountUnderflow => "guest registration count underflow"@,
        WasmErrorModel::Descriptor { message } => "invalid component descriptor: "@ + message,
        WasmErrorModel::KernelAbiMismatch { expected, actual } =>
            "kernel ABI mismatch: expected "@ + expected + ", got "@ + actual,
        WasmErrorModel::CapabilityDenied { capability } => "component capability `"@ + capability
            + "` is denied"@,
        WasmErrorModel::Capability { message } => "invalid WASI capability: "@ + message,
    }
}

impl WasmHostError {
    pub fn message(&self) -> (r: String)
        ensures
            r@ == wasm_error_text(self@),
    {
        match self {
            WasmHostError::Engine { message } => {
                let mut out = "wasmtime component error: ".to_owned();
                out.append(message.as_str());
                out
            },
            WasmHostError::RegistrationLimitExceeded { limit } => {
                let mut out = "guest registration limit ".to_owned();
                push_decimal(&mut out, *limit as u64);
                out.append(" exceeded");
                out
            },
            WasmHostError::RegistrationCountUnderflow => {
                "guest registration count underflow".to_owned()
            },
            WasmHostError::Descriptor { message } => {
                let mut out = "invalid component descriptor: ".to_owned();
                out.append(message.as_str());
                out
            },
            WasmHostError::KernelAbiMismatch { expected, actual } => {
                let mut out = "kernel ABI mismatch: expected ".to_owned();
                out.append(expected.as_str());
                out.append(", got ");
                out.append(actual.as_str());
                out
            },
            WasmHostError::CapabilityDenied { capability } => {
                let mut out = "component capability `".to_owned();
                out.append(capability.as_str());
                out.append("` is denied");
                out
            },
            WasmHostError::Capability { message } => {
                let mut out = "invalid WASI capability: ".to_owned();
                out.append(message.as_str());
                out
            },
        }
    }
}

} // verus!
