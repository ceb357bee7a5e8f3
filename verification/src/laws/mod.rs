//! What the operations of the library are for, said of their inputs and
//! results: what is read back of what was written, what adds up, what is kept
//! in order, and what two calls have to do with each other.

use vstd::prelude::*;

pub mod bytes;
pub mod counts;
pub mod flow;
pub mod messages;
pub mod pinning;
pub mod results;
pub mod rounds;
pub mod runtimes;
pub mod wire;

verus! {

} // verus!
