//! A verified core for a Git-compatible version-control engine.
//!
//! The crate stores immutable, content-addressed objects (blobs, trees,
//! commits, tags), manages mutable named references over those objects
//! through an atomic compare-and-swap primitive, encodes and decodes
//! object sets as binary packs, answers ancestry queries over the commit
//! graph, and drives the clone/fetch transfer negotiation as a pure
//! state machine.  All I/O, transport, and persistence backends live
//! outside this crate and talk to it through plain values.

pub mod codec;
pub mod errors;
pub mod graph;
pub mod model;
pub mod object;
pub mod oid;
pub mod pack;
pub mod proto;
pub mod refs;
pub mod store;

use vstd::prelude::*;

verus! {

} // verus!
