//! Transport layer for receiving samples from remote producers.
//!
//! A transport accepts connections, queues what they send, and lets the
//! drainers do the rest. [`TcpTransport`] is the one at hand; [`Transport`] is
//! what another one has to offer.

use vstd::prelude::*;

pub mod tcp;

pub use tcp::TcpTransport;

verus! {

/// Why a transport did not start.
#[derive(Debug, Clone, Copy, PartialEq, Eq, Structural)]
pub enum StartError {
    /// It is running already.
    AlreadyStarted,
}

/// Something that receives samples between its start and its shutdown.
pub trait Transport {
    spec fn running(&self) -> bool;

    /// Starts to receive. A transport that is running stays as it is.
    fn start(&mut self) -> (r: Result<(), StartError>)
        ensures
            r == if old(self).running() {
                Err::<(), StartError>(StartError::AlreadyStarted)
            } else {
                Ok::<(), StartError>(())
            },
            final(self).running(),
    ;

    /// Stops receiving. A transport that was shut down can be started again.
    fn shutdown(&mut self)
        ensures
            !final(self).running(),
    ;
}

} // verus!
