//! A replay buffer core: fixed-size samples go into a pre-allocated ring and
//! come out as whole batches, in the order in which their slots were reserved.

use vstd::prelude::*;

pub mod arith;
pub mod array_spec;
pub mod clock;
pub mod hist;
pub mod host_pinning;
pub mod ingress;
pub mod laws;
pub mod metrics;
pub mod protocol;
pub mod ring_buf;
pub mod runs;
pub mod sampling;
pub mod selector;
pub mod server;
pub mod store;
pub mod text;
pub mod transport;

verus! {

} // verus!
