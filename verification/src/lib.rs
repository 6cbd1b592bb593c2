//! Fiber lifecycles, effects, services and declarative loading.
pub mod abi;
pub mod acceptance;
pub mod artifact;
pub mod capability;
pub mod cli;
pub mod command;
pub mod context;
pub mod conversion;
pub mod declarations;
pub mod digest;
pub mod document;
pub mod dynamic;
pub mod effect;
pub mod entry;
pub mod error;
pub mod event;
pub mod expansion;
pub mod expression;
pub mod fates;
pub mod fiber;
pub mod fingerprints;
pub mod following;
pub mod grants;
pub mod graph;
pub mod guests;
pub mod id;
pub mod inheritance;
pub mod interface;
pub mod json;
pub mod kernel;
pub mod likeness;
pub mod loader;
pub mod logger;
pub mod merging;
pub mod method;
pub mod native;
pub mod order;
pub mod outcomes;
pub mod outline;
pub mod policy;
pub mod reading;
pub mod reconcile;
pub mod reload;
pub mod rendering;
pub mod sameness;
pub mod schema;
pub mod search;
pub mod service;
pub mod sorting;
pub mod standing;
pub mod supervisor;
pub mod supervisor_model;
pub mod teardown;
pub mod text;
pub mod timer;
pub mod tracking;
pub mod transaction;
pub mod tree;
pub mod value;
pub mod verdicts;
pub mod wasm_error;
