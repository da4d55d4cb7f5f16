//! A single-threaded cooperative component runtime.
//!
//! The crate provides the two primitives that make a reactive component tree
//! work without a garbage collector and without a multi-threaded executor:
//! a cooperative task scheduler that drives every pending unit of work once
//! per cycle and safely accepts new work spawned while a cycle is in
//! progress, and a single-slot broadcast event channel whose non-owning
//! producer handles fail loudly once every consumer is gone. A polled timer
//! and the quit flag of the outermost driver loop round out the core.

pub mod driver;
pub mod event;
pub mod runtime;
pub mod time;

pub use driver::Loop;
pub use event::{EventChannel, EventEmitError, EventEmitter, EventListener, RecvFuture};
pub use runtime::{rerender, Cancellable, Runtime};
pub use time::{sleep, Sleep};
