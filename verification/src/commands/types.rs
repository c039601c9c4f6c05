//! Command kinds that the coordinator brings along for simple games.

use crate::commands::{Command, CommandView};
use crate::simulation::SimulationId;
use crate::wire::{read_u32, take_u32, varint_bytes, write_u32};
use vstd::prelude::*;

verus! {

/// The kind under which a `ServerSpawn` travels.
pub const SERVER_SPAWN_TYPE: u16 = 1;

/// Asks for an entity to be made. The sender puts the placeholder in; the
/// id is drawn where the command is executed.
#[derive(Clone, Copy, Debug, PartialEq, Eq, Structural)]
pub struct ServerSpawn(pub SimulationId);

impl ServerSpawn {
    /// The command that carries this request.
    pub fn to_command(&self) -> (r: Command)
        ensures
            r@ == (CommandView {
                type_id: SERVER_SPAWN_TYPE,
                payload: varint_bytes(self.0.0 as nat),
            }),
    {
        let mut payload: Vec<u8> = Vec::new();
        write_u32(self.0.0, &mut payload);
        assert(payload@ =~= varint_bytes(self.0.0 as nat));
        Command::new(SERVER_SPAWN_TYPE, payload)
    }

    /// The request that `command` carries, if it is of this kind and its
    /// payload holds an id.
    pub fn from_command(command: &Command) -> (r: Option<Self>)
        ensures
            r == match take_u32(command.payload@) {
                Ok((id, _)) => if command.type_id == SERVER_SPAWN_TYPE {
                    Some(ServerSpawn(SimulationId(id)))
                } else {
                    None
                },
                Err(_) => None,
            },
    {
        if command.type_id != SERVER_SPAWN_TYPE {
            return None;
        }
        match read_u32(command.payload.as_slice()) {
            Ok((id, _)) => Some(ServerSpawn(SimulationId(id))),
            Err(_) => None,
        }
    }
}

} // verus!
