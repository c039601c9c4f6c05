//! Deterministic lockstep coordination for a tick-based multiplayer
//! simulation: the session clock and its state machine, the command pipeline
//! between peers and host, and peer membership.
//!
//! Every peer runs the same simulation on the same commands at the same
//! ticks. Peers send their input to a host; the host orders it, schedules it
//! for a tick in the near future and broadcasts it; nobody ever sends state.

use crate::connections::{ConnectionSettings, ServerMode};
use crate::simulation::SimulationSettings;
use vstd::prelude::*;

pub mod commands;
pub mod connections;
pub mod prelude;
pub mod session;
pub mod simulation;
pub mod wire;

verus! {

/// The configuration of a coordinator: how the session runs and how its host
/// is reached.
#[derive(Clone, Copy, Debug)]
pub struct RepliconLockstepPlugin {
    pub simulation: SimulationSettings,
    pub server: ConnectionSettings,
}

impl Default for RepliconLockstepPlugin {
    /// A session of eight players at thirty-three milliseconds a tick, hosted
    /// on this machine.
    fn default() -> (r: Self)
        ensures
            r.simulation.wf(),
            r.simulation.tick_timestep == 33_000_000,
            r.simulation.num_players == 8,
            r.simulation.base_input_tick_delay == 1,
            r.simulation.connection_check_tick_delay == 1,
            r.simulation.disconnect_tick_threshold == 20,
            r.server.server_mode == ServerMode::Host,
            r.server.server_address@ == seq![127u8, 0u8, 0u8, 1u8],
            r.server.server_port == 15342,
            r.server.reconnect_timer == 5_000_000_000,
    {
        RepliconLockstepPlugin {
            simulation: SimulationSettings::default(),
            server: ConnectionSettings::default(),
        }
    }
}

} // verus!
