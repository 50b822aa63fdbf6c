//! A content-addressed transform execution kernel: a registry of transform
//! specifications, a content-addressed store of JSON states, an append-only
//! trace log, and a graph executor that fires transforms in topological order.

use vstd::prelude::*;

pub mod executor;
pub mod graph;
pub mod json;
pub mod store;
pub mod trusted;

pub use json::Json;

verus! {

/// Version string of the inference adapter.
pub fn ml_version() -> (r: &'static str)
    ensures
        r@ == "engine-ml v0.1.0"@,
{
    "engine-ml v0.1.0"
}

/// Placeholder for the inference entry point while no backend is wired in.
pub fn infer_stub() -> (r: String)
    ensures
        r@ == "ml infer stub (install onnxruntime and enable crate)"@,
{
    "ml infer stub (install onnxruntime and enable crate)".to_owned()
}

} // verus!
