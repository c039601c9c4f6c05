use replicon_lockstep::commands::{
    Command, LockstepClientCommands, LockstepGameCommandBuffer, ServerSendCommands,
};
use replicon_lockstep::simulation::{
    handle_sim_state_change, tick_client, SessionFault, SetSimulationState, SimulationState,
    SimulationStateChanged, SimulationTick, SimulationTickUpdate,
};

fn broadcast(tick: u32, peer: u64) -> ServerSendCommands {
    let mut commands = LockstepClientCommands::new();
    commands.insert(peer, vec![Command::new(tick as u16, vec![])]);
    ServerSendCommands { tick, commands }
}

#[test]
fn tick_order_enforcement() {
    let mut clock = SimulationTick::default();
    let mut log = LockstepGameCommandBuffer::new();
    assert_eq!(tick_client(&broadcast(5, 1), &mut clock, &mut log, false), Ok(SimulationTickUpdate(5)));
    assert_eq!(clock, SimulationTick(5));
    let kept = log.get(5).cloned();
    assert_eq!(
        tick_client(&broadcast(7, 1), &mut clock, &mut log, false),
        Err(SessionFault::OutOfOrderTick)
    );
    assert_eq!(clock, SimulationTick(5));
    assert_eq!(log.len(), 6);
    assert_eq!(log.get(5), kept.as_ref());
    assert_eq!(log.get(7), None);
    // the tick that was skipped is still welcome
    assert_eq!(tick_client(&broadcast(6, 1), &mut clock, &mut log, false), Ok(SimulationTickUpdate(6)));
    assert_eq!(tick_client(&broadcast(7, 1), &mut clock, &mut log, false), Ok(SimulationTickUpdate(7)));
    assert_eq!(clock, SimulationTick(7));
}

#[test]
fn repeated_and_earlier_ticks_are_out_of_order() {
    let mut clock = SimulationTick(5);
    let mut log = LockstepGameCommandBuffer::new();
    for tick in [0u32, 4, 5, 7, u32::MAX] {
        assert_eq!(
            tick_client(&broadcast(tick, 1), &mut clock, &mut log, false),
            Err(SessionFault::OutOfOrderTick)
        );
    }
    assert_eq!(clock, SimulationTick(5));
    assert_eq!(log.len(), 0);
}

#[test]
fn the_first_broadcast_after_a_reset_may_be_any() {
    for tick in [0u32, 1, 2, 1000] {
        let mut clock = SimulationTick(0);
        let mut log = LockstepGameCommandBuffer::new();
        assert_eq!(
            tick_client(&broadcast(tick, 3), &mut clock, &mut log, false),
            Ok(SimulationTickUpdate(tick))
        );
        assert_eq!(clock.0, tick);
        assert_eq!(log.len(), tick as usize + 1);
        assert_eq!(log.get(tick), Some(&broadcast(tick, 3).commands));
        for earlier in 0..tick {
            assert_eq!(log.get(earlier), Some(&LockstepClientCommands::new()));
        }
    }
}

#[test]
fn the_last_tick_of_the_range_cannot_be_taken_in() {
    let mut clock = SimulationTick(0);
    let mut log = LockstepGameCommandBuffer::new();
    assert_eq!(
        tick_client(&broadcast(u32::MAX, 1), &mut clock, &mut log, false),
        Err(SessionFault::TickOverflow)
    );
    let mut clock = SimulationTick(u32::MAX - 1);
    assert_eq!(
        tick_client(&broadcast(u32::MAX, 1), &mut clock, &mut log, false),
        Err(SessionFault::TickOverflow)
    );
    let mut clock = SimulationTick(u32::MAX);
    assert_eq!(
        tick_client(&broadcast(0, 1), &mut clock, &mut log, false),
        Err(SessionFault::OutOfOrderTick)
    );
    assert_eq!(log.len(), 0);
}

#[test]
fn on_the_host_a_broadcast_only_tells_the_game() {
    let mut clock = SimulationTick(9);
    let mut log = LockstepGameCommandBuffer::new();
    assert_eq!(tick_client(&broadcast(3, 1), &mut clock, &mut log, true), Ok(SimulationTickUpdate(3)));
    assert_eq!(clock, SimulationTick(9));
    assert_eq!(log.len(), 0);
}

#[test]
fn a_broadcast_replaces_what_the_log_held() {
    let mut clock = SimulationTick(0);
    let mut log = LockstepGameCommandBuffer::new();
    log.record(1, 8, vec![Command::new(1, vec![])]);
    assert_eq!(tick_client(&broadcast(1, 2), &mut clock, &mut log, false), Ok(SimulationTickUpdate(1)));
    assert_eq!(log.get(1).unwrap().peers(), vec![2]);
}

#[test]
fn a_peer_adopts_the_announced_state() {
    let mut state = SimulationState::default();
    assert_eq!(state, SimulationState::Idle);
    let change = handle_sim_state_change(&mut state, &SetSimulationState(SimulationState::Setup));
    assert_eq!(
        change,
        SimulationStateChanged { old: SimulationState::Idle, new: SimulationState::Setup }
    );
    assert_eq!(state, SimulationState::Setup);
    let change = handle_sim_state_change(&mut state, &SetSimulationState(SimulationState::Setup));
    assert_eq!(
        change,
        SimulationStateChanged { old: SimulationState::Setup, new: SimulationState::Setup }
    );
    let change = handle_sim_state_change(&mut state, &SetSimulationState(SimulationState::Ending));
    assert_eq!(change.new, SimulationState::Ending);
    assert_eq!(state, SimulationState::Ending);
}
