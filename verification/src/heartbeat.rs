//! The lease rule of the heartbeat protocol. Writing heartbeats is I/O and
//! lives with the caller; the decision of whether the lease has run out is
//! made here over instants measured in milliseconds.

use vstd::prelude::*;

verus! {

/// Whether the lease has run out: a heartbeat was written at
/// `last_heartbeat` and at least `lease_duration` has passed since. An
/// agent that has not yet written a heartbeat holds no lease to lose.
pub fn lease_timed_out(last_heartbeat: Option<u64>, now: u64, lease_duration: u64) -> (r: bool)
    requires
        last_heartbeat is Some ==> last_heartbeat->0 <= now,
    ensures
        r == match last_heartbeat {
            Some(t) => now - t >= lease_duration,
            None => false,
        },
{
    match last_heartbeat {
        Some(time) => now - time >= lease_duration,
        None => false,
    }
}

} // verus!
