use replicon_lockstep::commands::{
    receive_commands_server, send_empty_commands_to_server_on_tick,
    send_initial_commands_to_server, ClientSendCommands, Command, LockstepClientCommands,
    LockstepGameCommandBuffer, LockstepGameCommandsReceived, ServerSendCommands,
};
use replicon_lockstep::connections::ClientDisconnect;
use replicon_lockstep::simulation::{
    delay_ticks, longest_rtt, tick_client, tick_server, SessionFault, SimulationSettings,
    SimulationState, SimulationTick, SimulationTickUpdate, TickOutcome,
};

const MS: u64 = 1_000_000;

fn settings() -> SimulationSettings {
    SimulationSettings {
        tick_timestep: 33 * MS,
        num_players: 2,
        base_input_tick_delay: 1,
        connection_check_tick_delay: 1,
        disconnect_tick_threshold: 20,
    }
}

fn x() -> Command {
    Command::new(42, vec![0xAB, 0xCD])
}

/// A host with two remote peers, each with its own clock and log.
struct Session {
    settings: SimulationSettings,
    state: SimulationState,
    timer: u8,
    host_tick: SimulationTick,
    received: LockstepGameCommandsReceived,
    history: LockstepGameCommandBuffer,
    peer_ticks: Vec<SimulationTick>,
    peer_logs: Vec<LockstepGameCommandBuffer>,
    peer_ids: Vec<u64>,
}

impl Session {
    fn new(peer_ids: Vec<u64>) -> Session {
        let n = peer_ids.len();
        Session {
            settings: settings(),
            state: SimulationState::Running,
            timer: 0,
            host_tick: SimulationTick::default(),
            received: LockstepGameCommandsReceived::new(),
            history: LockstepGameCommandBuffer::new(),
            peer_ticks: vec![SimulationTick::default(); n],
            peer_logs: (0..n).map(|_| LockstepGameCommandBuffer::new()).collect(),
            peer_ids,
        }
    }

    fn send(&mut self, peer: usize, rtt: Option<u64>, commands: Vec<Command>) -> Option<u32> {
        let event = ClientSendCommands { issued_tick: self.peer_ticks[peer].0, commands };
        receive_commands_server(
            Some(self.peer_ids[peer]),
            &event,
            rtt,
            &mut self.received,
            &mut self.history,
            &self.host_tick,
            &self.settings,
        )
        .unwrap()
    }

    fn step(&mut self, rtts: &Vec<u64>) -> TickOutcome {
        let outcome = tick_server(
            &mut self.state,
            &mut self.timer,
            &mut self.host_tick,
            &self.peer_ids,
            rtts,
            &self.received,
            &mut self.history,
            &self.settings,
        );
        if let TickOutcome::Advanced(broadcast) = &outcome {
            for p in 0..self.peer_ids.len() {
                let update =
                    tick_client(broadcast, &mut self.peer_ticks[p], &mut self.peer_logs[p], false);
                assert_eq!(update, Ok(SimulationTickUpdate(broadcast.tick)));
            }
        }
        outcome
    }
}

#[test]
fn two_peer_steady_state() {
    let mut s = Session::new(vec![1, 2]);
    let rtts = vec![0];
    let mut scheduled = None;
    for _ in 0..12 {
        // peer A is alive and has nothing to say
        s.send(0, Some(0), vec![]);
        // peer B has no round trip to speak of and submits X at its tick 5
        if s.peer_ticks[1].0 == 5 {
            let at_submit = s.host_tick.0;
            scheduled = s.send(1, None, vec![x()]);
            assert_eq!(scheduled, Some(at_submit + 1 + 1));
        } else {
            s.send(1, None, vec![]);
        }
        let before = s.host_tick.0;
        match s.step(&rtts) {
            TickOutcome::Advanced(broadcast) => assert_eq!(broadcast.tick, before + 1),
            other => panic!("the clock did not advance: {:?}", other),
        }
    }
    let at = scheduled.unwrap();
    assert_eq!(at, 7);
    assert_eq!(s.host_tick.0, 12);
    assert_eq!(s.history.get(at).unwrap().get(2), Some(&vec![x()]));
    for p in 0..2 {
        assert_eq!(s.peer_ticks[p].0, 12);
        assert_eq!(s.peer_logs[p].get(at).unwrap().get(2), Some(&vec![x()]));
        assert_eq!(s.peer_logs[p].get(at).unwrap().peers(), vec![2]);
        for t in 1..=12 {
            assert_eq!(s.peer_logs[p].get(t), s.history.get(t));
        }
    }
}

#[test]
fn a_measured_round_trip_of_zero_adds_no_delay() {
    let mut s = Session::new(vec![1, 2]);
    s.host_tick = SimulationTick(5);
    s.peer_ticks[1] = SimulationTick(5);
    assert_eq!(s.send(1, Some(0), vec![x()]), Some(6));
    assert_eq!(s.history.get(6).unwrap().get(2), Some(&vec![x()]));
}

#[test]
fn disconnect_pause() {
    let mut s = Session::new(vec![1, 2]);
    let rtts = vec![0];
    // both peers send at every tick up to 10, then peer B falls silent
    loop {
        s.send(0, Some(0), vec![]);
        if s.peer_ticks[1].0 <= 10 {
            s.send(1, Some(0), vec![]);
        }
        match s.step(&rtts) {
            TickOutcome::Advanced(_) => {},
            TickOutcome::Waiting => break,
            other => panic!("{:?}", other),
        }
    }
    // the look goes one tick back, so the clock stopped at 11 + 1
    assert_eq!(s.host_tick.0, 12);
    assert_eq!(s.timer, 1);
    for failed in 2..=20u8 {
        s.send(0, Some(0), vec![]);
        assert_eq!(s.step(&rtts), TickOutcome::Waiting);
        assert_eq!(s.timer, failed);
        assert_eq!(s.state, SimulationState::Running);
    }
    // the twenty-first failure in a row
    assert_eq!(s.step(&rtts), TickOutcome::Paused(vec![ClientDisconnect(2)]));
    assert_eq!(s.state, SimulationState::Paused);
    assert_eq!(s.timer, 0);
    assert_eq!(s.host_tick.0, 12);
    // paused: nothing more is reported
    for _ in 0..30 {
        assert_eq!(s.step(&rtts), TickOutcome::NotRunning);
    }
    assert_eq!(s.state, SimulationState::Paused);
    assert_eq!(s.host_tick.0, 12);
}

#[test]
fn a_late_peer_resets_the_count() {
    let mut s = Session::new(vec![1, 2]);
    let rtts = vec![];
    s.send(0, None, vec![]);
    assert_eq!(s.step(&rtts), TickOutcome::Waiting);
    assert_eq!(s.step(&rtts), TickOutcome::Waiting);
    assert_eq!(s.timer, 2);
    s.send(1, None, vec![]);
    assert!(matches!(s.step(&rtts), TickOutcome::Advanced(_)));
    assert_eq!(s.timer, 0);
    assert_eq!(s.host_tick.0, 1);
}

#[test]
fn rtt_based_delay() {
    let mut s = Session::new(vec![1, 3]);
    // peer C: round trip 100 ms, half of it is 50 ms, two ticks of 33 ms
    assert_eq!(delay_ticks(100 * MS, 33 * MS), 2);
    assert_eq!(s.send(1, Some(100 * MS), vec![x()]), Some(3));
    assert_eq!(s.history.len(), 4);
    assert_eq!(s.history.get(3).unwrap().get(3), Some(&vec![x()]));
    assert_eq!(s.history.get(3).unwrap().peers(), vec![3]);
    for t in 0..3 {
        assert!(s.history.get(t).unwrap().is_empty());
    }
    // what was sent is noted under the sender's own tick
    assert_eq!(s.received.get(0).unwrap().get(3), Some(&vec![x()]));
}

#[test]
fn delay_rounds_half_the_round_trip_up() {
    assert_eq!(delay_ticks(0, 33 * MS), 0);
    assert_eq!(delay_ticks(1, 33 * MS), 1);
    assert_eq!(delay_ticks(66 * MS, 33 * MS), 1);
    assert_eq!(delay_ticks(66 * MS + 1, 33 * MS), 2);
    assert_eq!(delay_ticks(132 * MS, 33 * MS), 2);
    assert_eq!(delay_ticks(u64::MAX, 1), (u64::MAX - 1) / 2 + 1);
    assert_eq!(delay_ticks(u64::MAX, u64::MAX), 1);
    assert_eq!(longest_rtt(&vec![]), 0);
    assert_eq!(longest_rtt(&vec![3, 9, 2, 9, 1]), 9);
}

#[test]
fn host_self_commands() {
    let y = Command::new(2, vec![1]);
    let mut received = LockstepGameCommandsReceived::new();
    let mut history = LockstepGameCommandBuffer::new();
    let tick = SimulationTick(4);
    let event = ClientSendCommands { issued_tick: 4, commands: vec![y.clone()] };
    let at = receive_commands_server(
        None,
        &event,
        None,
        &mut received,
        &mut history,
        &tick,
        &settings(),
    );
    assert_eq!(at, Ok(Some(4 + 2)));
    assert_eq!(history.get(6).unwrap().get(1), Some(&vec![y.clone()]));
    assert_eq!(history.get(6).unwrap().peers(), vec![1]);
    assert_eq!(received.get(4).unwrap().get(1), Some(&vec![y]));
}

#[test]
fn a_heartbeat_is_noted_and_schedules_nothing() {
    let mut received = LockstepGameCommandsReceived::new();
    let mut history = LockstepGameCommandBuffer::new();
    let event = ClientSendCommands { issued_tick: 3, commands: vec![] };
    let r = receive_commands_server(
        Some(8),
        &event,
        Some(10 * MS),
        &mut received,
        &mut history,
        &SimulationTick(3),
        &settings(),
    );
    assert_eq!(r, Ok(None));
    assert_eq!(history.len(), 0);
    assert_eq!(received.len(), 4);
    assert_eq!(received.get(3).unwrap().get(8), Some(&vec![]));
}

#[test]
fn a_later_message_for_the_same_tick_replaces_the_earlier() {
    let mut received = LockstepGameCommandsReceived::new();
    let mut history = LockstepGameCommandBuffer::new();
    let tick = SimulationTick(3);
    let first = ClientSendCommands { issued_tick: 3, commands: vec![x()] };
    let second = ClientSendCommands { issued_tick: 3, commands: vec![] };
    assert_eq!(
        receive_commands_server(Some(8), &first, Some(0), &mut received, &mut history, &tick, &settings()),
        Ok(Some(4))
    );
    assert_eq!(
        receive_commands_server(Some(8), &second, Some(0), &mut received, &mut history, &tick, &settings()),
        Ok(None)
    );
    assert_eq!(received.get(3).unwrap().get(8), Some(&vec![]));
    assert_eq!(history.get(4).unwrap().get(8), Some(&vec![x()]));
}

#[test]
fn ticks_past_the_clocks_range_are_faults() {
    let mut received = LockstepGameCommandsReceived::new();
    let mut history = LockstepGameCommandBuffer::new();
    let tick = SimulationTick(0);
    let event = ClientSendCommands { issued_tick: u32::MAX, commands: vec![] };
    assert_eq!(
        receive_commands_server(Some(8), &event, Some(0), &mut received, &mut history, &tick, &settings()),
        Err(SessionFault::TickOverflow)
    );
    let event = ClientSendCommands { issued_tick: 0, commands: vec![x()] };
    assert_eq!(
        receive_commands_server(
            Some(8),
            &event,
            Some(u64::MAX),
            &mut received,
            &mut history,
            &tick,
            &settings()
        ),
        Err(SessionFault::TickOverflow)
    );
    let late = SimulationTick(u32::MAX - 1);
    assert_eq!(
        receive_commands_server(Some(8), &event, Some(0), &mut received, &mut history, &late, &settings()),
        Err(SessionFault::TickOverflow)
    );
    assert_eq!(received.len(), 0);
    assert_eq!(history.len(), 0);
    // without commands nothing is scheduled, so nothing overflows
    let heartbeat = ClientSendCommands { issued_tick: 0, commands: vec![] };
    assert_eq!(
        receive_commands_server(
            Some(8),
            &heartbeat,
            Some(u64::MAX),
            &mut received,
            &mut history,
            &late,
            &settings()
        ),
        Ok(None)
    );

    // the host looks so far back that it looks at tick 0, where peer 1 has sent
    let mut far_back = settings();
    far_back.connection_check_tick_delay = u32::MAX;
    let mut heard = LockstepGameCommandsReceived::new();
    heard.record(0, 1, vec![]);
    let mut state = SimulationState::Running;
    let mut timer = 3u8;
    let mut clock = SimulationTick(u32::MAX - 1);
    let outcome = tick_server(
        &mut state,
        &mut timer,
        &mut clock,
        &vec![1],
        &vec![],
        &heard,
        &mut history,
        &far_back,
    );
    assert_eq!(outcome, TickOutcome::Fault(SessionFault::TickOverflow));
    assert_eq!((state, timer, clock), (SimulationState::Running, 3, SimulationTick(u32::MAX - 1)));
}

#[test]
fn the_host_only_ticks_while_running() {
    for state in [
        SimulationState::Idle,
        SimulationState::Connecting,
        SimulationState::Setup,
        SimulationState::Starting,
        SimulationState::Reconnecting,
        SimulationState::Paused,
        SimulationState::Ending,
    ] {
        let mut now = state;
        let mut timer = 7u8;
        let mut clock = SimulationTick(3);
        let mut history = LockstepGameCommandBuffer::new();
        let outcome = tick_server(
            &mut now,
            &mut timer,
            &mut clock,
            &vec![],
            &vec![],
            &LockstepGameCommandsReceived::new(),
            &mut history,
            &settings(),
        );
        assert_eq!(outcome, TickOutcome::NotRunning);
        assert_eq!((now, timer, clock), (state, 7, SimulationTick(3)));
        assert_eq!(history.len(), 0);
    }
}

#[test]
fn an_empty_tick_is_still_broadcast() {
    let mut state = SimulationState::Running;
    let mut timer = 9u8;
    let mut clock = SimulationTick(0);
    let mut history = LockstepGameCommandBuffer::new();
    let mut received = LockstepGameCommandsReceived::new();
    received.record(0, 1, vec![]);
    let outcome = tick_server(
        &mut state,
        &mut timer,
        &mut clock,
        &vec![1],
        &vec![],
        &received,
        &mut history,
        &settings(),
    );
    assert_eq!(
        outcome,
        TickOutcome::Advanced(ServerSendCommands { tick: 1, commands: LockstepClientCommands::new() })
    );
    assert_eq!((state, timer, clock), (SimulationState::Running, 0, SimulationTick(1)));
    // the host's log now reaches the tick it broadcast
    assert_eq!(history.len(), 2);
    assert_eq!(history.get(1), Some(&LockstepClientCommands::new()));
}

#[test]
fn the_look_back_follows_the_longest_round_trip() {
    // round trips of 10 ms and 100 ms: half the longest is two ticks, plus
    // one of slack: the host looks three ticks back
    let rtts = vec![10 * MS, 100 * MS];
    let mut received = LockstepGameCommandsReceived::new();
    for t in 0..=2 {
        received.record(t, 1, vec![]);
        received.record(t, 2, vec![]);
    }
    received.record(3, 1, vec![]);
    let mut history = LockstepGameCommandBuffer::new();
    let mut state = SimulationState::Running;
    let mut timer = 0u8;
    let mut clock = SimulationTick(5);
    let clients = vec![1, 2];
    // at tick 5 the host looks at tick 2, where both have sent
    let outcome =
        tick_server(&mut state, &mut timer, &mut clock, &clients, &rtts, &received, &mut history, &settings());
    assert!(matches!(outcome, TickOutcome::Advanced(_)));
    assert_eq!(clock.0, 6);
    // at tick 6 it looks at tick 3, where peer 2 has not
    let outcome =
        tick_server(&mut state, &mut timer, &mut clock, &clients, &rtts, &received, &mut history, &settings());
    assert_eq!(outcome, TickOutcome::Waiting);
    assert_eq!(clock.0, 6);
    // with shorter round trips it would look at tick 5, where nobody has
    let outcome = tick_server(
        &mut state,
        &mut timer,
        &mut clock,
        &clients,
        &vec![0],
        &received,
        &mut history,
        &settings(),
    );
    assert_eq!(outcome, TickOutcome::Waiting);
    assert_eq!(timer, 2);
}

#[test]
fn early_ticks_look_at_tick_zero() {
    let mut received = LockstepGameCommandsReceived::new();
    received.record(0, 1, vec![]);
    let mut history = LockstepGameCommandBuffer::new();
    let mut state = SimulationState::Running;
    let mut timer = 0u8;
    let mut clock = SimulationTick(0);
    let rtts = vec![200 * MS];
    // the look back is 4 + 1 ticks; up to tick 5 the host looks at tick 0
    for expected in 1..=6u32 {
        let outcome = tick_server(
            &mut state,
            &mut timer,
            &mut clock,
            &vec![1],
            &rtts,
            &received,
            &mut history,
            &settings(),
        );
        assert!(matches!(outcome, TickOutcome::Advanced(_)));
        assert_eq!(clock.0, expected);
    }
    // at tick 6 it looks at tick 1
    let outcome = tick_server(
        &mut state,
        &mut timer,
        &mut clock,
        &vec![1],
        &rtts,
        &received,
        &mut history,
        &settings(),
    );
    assert_eq!(outcome, TickOutcome::Waiting);
}

#[test]
fn a_threshold_of_zero_pauses_at_once() {
    let mut settings = settings();
    settings.disconnect_tick_threshold = 0;
    let mut state = SimulationState::Running;
    let mut timer = 0u8;
    let mut clock = SimulationTick(0);
    let mut history = LockstepGameCommandBuffer::new();
    let outcome = tick_server(
        &mut state,
        &mut timer,
        &mut clock,
        &vec![4, 2, 9],
        &vec![],
        &LockstepGameCommandsReceived::new(),
        &mut history,
        &settings,
    );
    assert_eq!(
        outcome,
        TickOutcome::Paused(vec![ClientDisconnect(4), ClientDisconnect(2), ClientDisconnect(9)])
    );
    assert_eq!(state, SimulationState::Paused);
}

#[test]
fn heartbeats() {
    let first = send_initial_commands_to_server();
    assert_eq!(first, ClientSendCommands { issued_tick: 0, commands: vec![] });
    let broadcast = ServerSendCommands { tick: 17, commands: LockstepClientCommands::new() };
    assert_eq!(
        send_empty_commands_to_server_on_tick(&broadcast, true, vec![]),
        Some(ClientSendCommands { issued_tick: 17, commands: vec![] })
    );
    assert_eq!(
        send_empty_commands_to_server_on_tick(&broadcast, true, vec![x()]),
        Some(ClientSendCommands { issued_tick: 17, commands: vec![x()] })
    );
    assert_eq!(send_empty_commands_to_server_on_tick(&broadcast, false, vec![x()]), None);
}

#[test]
fn commands_are_executed_after_they_were_issued() {
    for base in [0u8, 1, 3] {
        for rtt in [None, Some(0u64), Some(1), Some(40 * MS), Some(500 * MS)] {
            for (issued, current) in [(0u32, 0u32), (4, 4), (4, 9)] {
                let mut chosen = settings();
                chosen.base_input_tick_delay = base;
                let mut received = LockstepGameCommandsReceived::new();
                let mut history = LockstepGameCommandBuffer::new();
                let event = ClientSendCommands { issued_tick: issued, commands: vec![x()] };
                let at = receive_commands_server(
                    Some(2),
                    &event,
                    rtt,
                    &mut received,
                    &mut history,
                    &SimulationTick(current),
                    &chosen,
                )
                .unwrap()
                .unwrap();
                let delay = match rtt {
                    None => 1,
                    Some(nanos) => delay_ticks(nanos, chosen.tick_timestep) as u32,
                };
                assert_eq!(at, current + delay + base as u32);
                if rtt != Some(0) || base > 0 {
                    assert!(at > issued);
                    assert!(at > current);
                } else {
                    // neither a round trip nor a base delay: executed at once
                    assert_eq!(at, current);
                }
            }
        }
    }
}

#[test]
fn the_clock_only_advances_when_everybody_has_sent() {
    let clients = vec![1u64, 2, 3];
    for present in 0..8u32 {
        let mut received = LockstepGameCommandsReceived::new();
        for (bit, peer) in clients.iter().enumerate() {
            if present & (1 << bit) != 0 {
                received.record(0, *peer, vec![]);
            }
        }
        let mut state = SimulationState::Running;
        let mut timer = 0u8;
        let mut clock = SimulationTick(0);
        let mut history = LockstepGameCommandBuffer::new();
        let outcome = tick_server(
            &mut state,
            &mut timer,
            &mut clock,
            &clients,
            &vec![],
            &received,
            &mut history,
            &settings(),
        );
        if present == 7 {
            assert!(matches!(outcome, TickOutcome::Advanced(_)));
            assert_eq!(clock.0, 1);
        } else {
            assert_eq!(outcome, TickOutcome::Waiting);
            assert_eq!(clock.0, 0);
            assert_eq!(timer, 1);
        }
    }
}

#[test]
fn without_anything_received_the_clock_stands() {
    // nobody is connected and nothing was received for the tick that is checked
    let mut state = SimulationState::Running;
    let mut timer = 0u8;
    let mut clock = SimulationTick(0);
    let mut history = LockstepGameCommandBuffer::new();
    let mut received = LockstepGameCommandsReceived::new();
    let outcome = tick_server(
        &mut state,
        &mut timer,
        &mut clock,
        &vec![],
        &vec![],
        &received,
        &mut history,
        &settings(),
    );
    assert_eq!(outcome, TickOutcome::Waiting);
    assert_eq!((clock.0, timer), (0, 1));
    // once the log reaches that tick, nobody is missing
    received.resize(1, LockstepClientCommands::new());
    let outcome = tick_server(
        &mut state,
        &mut timer,
        &mut clock,
        &vec![],
        &vec![],
        &received,
        &mut history,
        &settings(),
    );
    assert!(matches!(outcome, TickOutcome::Advanced(_)));
    assert_eq!((clock.0, timer), (1, 0));
}
