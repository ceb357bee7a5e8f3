//! Optional page-locking of the ring buffers for a CUDA runtime.
//!
//! Copying out of pageable memory is not a DMA transfer; out of page-locked
//! memory it is. Either every buffer ends up locked or the caller gets an error
//! saying why; there is no best-effort path, because a silent no-op cannot be
//! told from locking that does not help.
//!
//! [`resolve`] and [`wheels`] decide where to look for the runtime and in which
//! order, [`register`] which memory to lock and what to undo when part of that
//! fails; [`ladder`] states what holds of the search as a whole. All of them
//! only decide; loading libraries, reading directories and calling the runtime
//! is up to the caller.

use crate::host_pinning::resolve::texts;
use crate::text::{append_decimal, append_signed, decimal, signed_decimal};
use vstd::prelude::*;
use vstd::string::*;

pub mod ladder;
pub mod register;
pub mod resolve;
pub mod wheels;

verus! {

/// The code with which the runtime reports success.
pub const CUDA_SUCCESS: i32 = 0;

/// A contiguous host allocation to page-lock: where it is, and its bytes.
#[derive(Debug, Clone, Copy, PartialEq, Eq, Structural)]
pub struct Region {
    pub addr: usize,
    pub len: usize,
}

/// Why pinning could not be delivered. On failure nothing is left registered.
#[derive(Debug)]
pub enum PinError {
    /// No CUDA runtime could be loaded. One line per probed path, so that a
    /// caller can fix the environment.
    RuntimeUnavailable { probed: Vec<String> },
    /// The runtime rejected a registration. `name` is the CUDA error symbol.
    Registration {
        name: String,
        code: i32,
        /// Which of the caller's regions was rejected.
        region_index: usize,
        len: usize,
    },
}

/// Lines of a list, each on a line of its own.
pub open spec fn list_text(lines: Seq<Seq<char>>) -> Seq<char>
    decreases lines.len(),
{
    if lines.len() == 0 {
        Seq::empty()
    } else {
        list_text(lines.drop_last()) + "\n  - "@ + lines.last()
    }
}

impl PinError {
    /// The message of the error.
    pub open spec fn text(self) -> Seq<char> {
        match self {
            PinError::RuntimeUnavailable { probed } =>
                "pin_host_memory=True but no CUDA runtime could be loaded. Probed, in order:"@
                + list_text(texts(probed@))
                + "\nInstall a CUDA runtime (for example the nvidia-cuda-runtime wheel), or construct the Server after your framework has initialised CUDA."@,
            PinError::Registration { name, code, region_index, len } =>
                "pin_host_memory=True but cudaHostRegister failed with "@ + name@ + " ("@
                + signed_decimal(code as int) + ") on ring buffer "@ + decimal(
                region_index as nat,
            ) + " ("@ + decimal(len as nat)
                + " bytes). Registrations made before the failure have been rolled back. A usable CUDA device must be visible to this process; construct the Server after CUDA is initialised."@,
        }
    }

    pub fn message(&self) -> (r: String)
        ensures
            r@ == self.text(),
    {
        match self {
            PinError::RuntimeUnavailable { probed } => {
                let ghost lines = texts(probed@);
                let mut text: String =
                    "pin_host_memory=True but no CUDA runtime could be loaded. Probed, in order:".to_owned();
                let ghost head = text@;
                let mut i: usize = 0;
                assert(lines.take(0) =~= Seq::<Seq<char>>::empty());
                assert(head + list_text(lines.take(0)) =~= head);
                while i < probed.len()
                    invariant
                        i <= probed@.len(),
                        lines == texts(probed@),
                        text@ == head + list_text(lines.take(i as int)),
                    decreases probed.len() - i,
                {
                    text.append("\n  - ");
                    text.append(probed[i].as_str());
                    proof {
                        assert(lines.take(i + 1).drop_last() =~= lines.take(i as int));
                        assert(text@ =~= head + list_text(lines.take(i + 1)));
                    }
                    i = i + 1;
                }
                assert(lines.take(i as int) =~= lines);
                text.append(
                    "\nInstall a CUDA runtime (for example the nvidia-cuda-runtime wheel), or construct the Server after your framework has initialised CUDA.",
                );
                text
            },
            PinError::Registration { name, code, region_index, len } => {
                let mut text: String =
                    "pin_host_memory=True but cudaHostRegister failed with ".to_owned();
                text.append(name.as_str());
                text.append(" (");
                append_signed(&mut text, *code);
                text.append(") on ring buffer ");
                append_decimal(&mut text, *region_index as u64);
                text.append(" (");
                append_decimal(&mut text, *len as u64);
                text.append(
                    " bytes). Registrations made before the failure have been rolled back. A usable CUDA device must be visible to this process; construct the Server after CUDA is initialised.",
                );
                text
            },
        }
    }
}

} // verus!
