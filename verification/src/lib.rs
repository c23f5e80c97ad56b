//! Core of a small single-core real-time kernel: an index-linked circular
//! list, the object registry built on it, the ready-queue bitmap, the thread
//! descriptor, the scheduler state and the two guards that bracket every
//! mutation of shared kernel state.

pub mod bitmap;
pub mod class;
pub mod config;
pub mod cpu;
pub mod kernel;
pub mod list;
pub mod machine;
pub mod object;
pub mod scheduler;
pub mod thread;
