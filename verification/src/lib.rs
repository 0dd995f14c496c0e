pub mod command;
pub mod defs;
pub mod peer;
pub mod persist;
pub mod timeout;

use vstd::prelude::*;

verus! {

/// Milliseconds between two wakes of the apply timer.
pub const APPLY_INTERVAL: u64 = 50;

/// Milliseconds between two heartbeat broadcasts of a leader.
pub const HEARTBEAT_INTERVAL: u64 = 50;

/// Milliseconds a leader waits for a single outbound RPC attempt.
pub const RPC_TIMEOUT: u64 = 1;

} // verus!
