//! Guest-side logic of a WebAssembly HTTP-request plugin.
//!
//! The host hands the guest the current request as a UTF-8 JSON document;
//! the guest marks the request's `headers` object and hands the re-encoded
//! document back.  Everything that decides or computes lives here, verified:
//! the JSON document model, its parser and serializer, the header mutation,
//! and the decision logic of the `transform` entry point.  The raw ABI
//! plumbing (allocator, host imports) is unverified glue around this crate.

pub mod json;
pub mod laws;
pub mod mutate;
pub mod parse;
pub mod roundtrip;
pub mod transform;
