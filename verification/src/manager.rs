//! The response-channel connection policy: the decision the manager task
//! takes each tick from the active-client count and whether an outbound
//! connection is currently held. The embedding program performs the chosen
//! action (tear down, hold, or dial) and sleeps for the returned interval.

use vstd::prelude::*;

verus! {

/// What the manager does on one tick.
#[derive(Debug, Clone, Copy, PartialEq, Eq, Structural)]
pub enum ManagerStep {
    /// No client is interacting: tear down any outbound connection and idle.
    Disconnect,
    /// Clients are active and a connection is held: keep it and re-check later.
    Hold,
    /// Clients are active but no connection is held: attempt to dial out.
    Connect,
}

/// The policy: the connection is wanted exactly while clients are active.
pub open spec fn spec_manager_step(active_clients: nat, connected: bool) -> ManagerStep {
    if active_clients == 0 {
        ManagerStep::Disconnect
    } else if connected {
        ManagerStep::Hold
    } else {
        ManagerStep::Connect
    }
}

pub fn manager_step(active_clients: usize, connected: bool) -> (r: ManagerStep)
    ensures
        r == spec_manager_step(active_clients as nat, connected),
{
    if active_clients == 0 {
        ManagerStep::Disconnect
    } else if connected {
        ManagerStep::Hold
    } else {
        ManagerStep::Connect
    }
}

/// How long to sleep after a tick, in milliseconds: idle and re-check ticks
/// poll at one second, a fresh connection is held for five before the next
/// look, and a failed dial backs off for two.
pub open spec fn spec_manager_delay_ms(step: ManagerStep, connect_succeeded: bool) -> u64 {
    match step {
        ManagerStep::Disconnect => 1000,
        ManagerStep::Hold => 1000,
        ManagerStep::Connect => if connect_succeeded {
            5000
        } else {
            2000
        },
    }
}

pub fn manager_delay_ms(step: ManagerStep, connect_succeeded: bool) -> (r: u64)
    ensures
        r == spec_manager_delay_ms(step, connect_succeeded),
{
    match step {
        ManagerStep::Disconnect => 1000,
        ManagerStep::Hold => 1000,
        ManagerStep::Connect => if connect_succeeded {
            5000
        } else {
            2000
        },
    }
}

} // verus!
