//! The frames of the stack of input and output contexts.

use vstd::prelude::*;

verus! {

/// Where a stream of the interpreter is connected.
#[derive(Clone, Copy, Debug, PartialEq, Eq, Structural)]
pub enum Channel {
    /// The stream of the host process.
    Standard,
    /// The text that is being loaded.
    Source,
}

/// One frame of the stack of input and output contexts.
#[derive(Clone, Copy, Debug, PartialEq, Eq, Structural)]
pub struct IoFrame {
    pub input: Channel,
    pub output: Channel,
}

/// The frame that a push installs.
pub open spec fn default_frame() -> IoFrame {
    IoFrame { input: Channel::Standard, output: Channel::Standard }
}

} // verus!
