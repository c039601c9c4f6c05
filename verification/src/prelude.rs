//! What most users of the coordinator need, in one import.

pub use crate::commands::{
    ClientSendCommands, Command, LockstepClientCommands, LockstepGameCommandBuffer,
    LockstepGameCommandsReceived, ServerSendCommands,
};
pub use crate::connections::{
    ClientDisconnect, ClientId, ClientReady, ClientReadyEvent, ClientReconnect,
    ConnectionSettings, LocalClient, Peer, Peers, ServerMode,
};
pub use crate::simulation::{
    SessionFault, SetSimulationState, SimTick, SimulationId, SimulationIdCounter,
    SimulationIdEntityMap, SimulationSettings, SimulationState, SimulationStateChanged,
    SimulationTick, SimulationTickUpdate,
};
pub use crate::RepliconLockstepPlugin;
