//! Reachability-monitoring library: a probe scheduler's result caches, the
//! REST query/mutation contract over them, and the JSON documents they
//! exchange, all with verified specifications.

use vstd::prelude::*;

pub mod assets;
pub mod clock;
pub mod dec;
pub mod decode;
pub mod handlers;
pub mod json;
pub mod matrix;
pub mod parse;
pub mod resource;
pub mod routes;
pub mod sampling;
pub mod serial;
pub mod status;
pub mod text;

verus! {

/// Number of milliseconds in one second, used to convert the configured
/// probe interval into the timer's unit.
pub const MS_PER_SEC: u32 = 1000;

} // verus!
