//! What the kernel asks of the machine layer, the code that knows the core
//! it runs on.
//!
//! The kernel decides; the machine layer acts. A kernel operation that needs
//! it takes it as a function and calls it at the point where the act is due,
//! with the interrupt mask that is in force at that point and the request.

use vstd::prelude::*;

verus! {

/// A request to the machine layer.
#[derive(Clone, Copy, PartialEq, Eq, Debug, Structural)]
pub enum MachineCall {
    /// Run the exit routine `routine` for `thread`.
    Cleanup {
        /// The token of the routine.
        routine: usize,
        /// The handle of the exiting thread.
        thread: usize,
    },
    /// Stop the timer of `thread` and take it out of the timer list.
    DetachTimer {
        /// The handle of the exiting thread.
        thread: usize,
    },
    /// Give the core to `thread`, whose saved stack pointer is `sp`.
    SwitchTo {
        /// The handle of the thread to run.
        thread: usize,
        /// Its saved stack pointer.
        sp: usize,
    },
}

} // verus!
