//! Virtual wall-clock time for child processes: the verified core.
//!
//! The command-line front end and the preloaded interposition shim perform
//! the I/O; this library holds the decisions and conversions they rely on:
//! duration text, clock-value conversions, the warp state file, the
//! interactive step controller and the re-entrancy guard.
pub mod clock;
pub mod duration;
pub mod hook;
pub mod launch;
pub mod probe;
pub mod state;
pub mod step;
pub mod text;
