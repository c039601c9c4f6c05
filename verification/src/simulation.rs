//! The session clock, the session's lifecycle and the host's decision to
//! advance.

use crate::commands::{
    absent_peers, all_present, lemma_absent_none, log_bundle, log_get, log_grow, log_install,
    BundleView,
    CommandView,
    LockstepClientCommands, LockstepGameCommandBuffer, LockstepGameCommandsReceived, LogView,
    ServerSendCommands,
};
use crate::connections::{none_ready, ClientDisconnect, ClientId, Peers};
use std::collections::HashMap;
use vstd::prelude::*;

verus! {

/// A tick of the simulation. The clock starts at `0`; the first tick that is
/// broadcast is `1`.
pub type SimTick = u32;

/// Parameters of a session.
#[derive(Clone, Copy, Debug)]
pub struct SimulationSettings {
    /// How long one tick lasts, in nanoseconds. Never zero.
    pub tick_timestep: u64,
    /// How many peers a session waits for before it is set up.
    pub num_players: u8,
    /// Ticks added to every command's delay, whatever the sender's round
    /// trip, to absorb jitter.
    pub base_input_tick_delay: u8,
    /// Ticks that the host looks further back, beyond half the longest round
    /// trip, when it checks that every peer is still sending.
    pub connection_check_tick_delay: u32,
    /// How many checks in a row may fail before the session is paused.
    pub disconnect_tick_threshold: u8,
}

impl Default for SimulationSettings {
    fn default() -> (r: Self)
        ensures
            r.tick_timestep == 33_000_000,
            r.num_players == 8,
            r.base_input_tick_delay == 1,
            r.connection_check_tick_delay == 1,
            r.disconnect_tick_threshold == 20,
            r.wf(),
    {
        SimulationSettings {
            tick_timestep: 33_000_000,
            num_players: 8,
            base_input_tick_delay: 1,
            connection_check_tick_delay: 1,
            disconnect_tick_threshold: 20,
        }
    }
}

impl SimulationSettings {
    /// Settings are usable when a tick takes time.
    pub open spec fn wf(&self) -> bool {
        self.tick_timestep > 0
    }

    /// Whether the settings are usable.
    pub fn is_valid(&self) -> (r: bool)
        ensures
            r == self.wf(),
    {
        self.tick_timestep > 0
    }
}

/// The stages of a session.
#[derive(Clone, Copy, Debug, PartialEq, Eq, Hash, Structural)]
pub enum SimulationState {
    /// No session.
    Idle,
    /// Peers are connecting to the host.
    Connecting,
    /// Every peer has connected; each prepares and then reports that it is
    /// ready.
    Setup,
    /// Every peer is ready; clock and logs are reset.
    Starting,
    /// Ticks advance.
    Running,
    /// This peer lost its connection and tries to get it back.
    Reconnecting,
    /// Ticks stand still because a peer's input stayed away.
    Paused,
    /// The session is over.
    Ending,
}

impl Default for SimulationState {
    fn default() -> (r: Self)
        ensures
            r == SimulationState::Idle,
    {
        SimulationState::Idle
    }
}

/// The host's order to every peer to enter a state.
#[derive(Clone, Copy, Debug, PartialEq, Eq, Structural)]
pub struct SetSimulationState(pub SimulationState);

/// Tells the game that the session went from one state to another.
#[derive(Clone, Copy, Debug, PartialEq, Eq, Structural)]
pub struct SimulationStateChanged {
    pub old: SimulationState,
    pub new: SimulationState,
}

/// Tells the game that a tick has become current.
#[derive(Clone, Copy, Debug, PartialEq, Eq, Structural)]
pub struct SimulationTickUpdate(pub SimTick);

/// The tick that a peer has reached.
#[derive(Clone, Copy, Debug, PartialEq, Eq, Structural)]
pub struct SimulationTick(pub SimTick);

impl Default for SimulationTick {
    fn default() -> (r: Self)
        ensures
            r.0 == 0,
    {
        SimulationTick(0)
    }
}

/// A condition that ends the session: the coordinator reports it and changes
/// nothing.
#[derive(Clone, Copy, Debug, PartialEq, Eq, Structural)]
pub enum SessionFault {
    /// A broadcast arrived that does not follow the last one.
    OutOfOrderTick,
    /// A message names a peer that is not part of the session.
    UnknownPeer,
    /// A tick would pass the end of the clock's range.
    TickOverflow,
}

/// `a / b`, rounded up.
pub open spec fn ceil_div(a: int, b: int) -> int {
    if a <= 0 {
        0
    } else {
        (a - 1) / b + 1
    }
}

/// The ticks that half a round trip of `rtt` nanoseconds takes, rounded up,
/// when a tick lasts `timestep` nanoseconds.
pub open spec fn rtt_delay_ticks(rtt: u64, timestep: u64) -> int {
    ceil_div(rtt as int, 2 * timestep)
}

/// The longest of `rtts`, `0` where there is none.
pub open spec fn max_rtt(rtts: Seq<u64>) -> u64
    decreases rtts.len(),
{
    if rtts.len() == 0 {
        0
    } else {
        let rest = max_rtt(rtts.drop_last());
        if rtts.last() > rest {
            rtts.last()
        } else {
            rest
        }
    }
}

/// How many ticks back the host looks when it checks who is still sending.
pub open spec fn tick_lookback(rtts: Seq<u64>, settings: SimulationSettings) -> int {
    rtt_delay_ticks(max_rtt(rtts), settings.tick_timestep) + settings.connection_check_tick_delay
}

/// The tick whose received input decides whether the host may leave `tick`.
pub open spec fn tick_to_check(tick: SimTick, lookback: int) -> SimTick {
    if lookback > tick {
        0
    } else {
        (tick - lookback) as SimTick
    }
}

/// The rule for advancing: the host has received input for the tick that is
/// checked, and among it that of every connected peer.
pub open spec fn gate_open(
    received: LogView,
    clients: Seq<ClientId>,
    rtts: Seq<u64>,
    tick: SimTick,
    settings: SimulationSettings,
) -> bool {
    let checked = tick_to_check(tick, tick_lookback(rtts, settings));
    log_get(received, checked) is Some && all_present(log_bundle(received, checked), clients)
}

/// The connected peers whose input for the checked tick is missing.
pub open spec fn gate_absent(
    received: LogView,
    clients: Seq<ClientId>,
    rtts: Seq<u64>,
    tick: SimTick,
    settings: SimulationSettings,
) -> Seq<ClientId> {
    absent_peers(log_bundle(received, tick_to_check(tick, tick_lookback(rtts, settings))), clients)
}

/// The ticks that half a round trip of `rtt` nanoseconds takes, rounded up.
pub fn delay_ticks(rtt: u64, timestep: u64) -> (r: u64)
    requires
        timestep > 0,
    ensures
        r == rtt_delay_ticks(rtt, timestep),
        r <= rtt / 2 + 1,
{
    if rtt == 0 {
        0
    } else {
        let span: u128 = 2 * (timestep as u128);
        let whole: u128 = ((rtt - 1) as u128) / span;
        assert(whole <= (rtt - 1) / 2) by (nonlinear_arith)
            requires
                whole == ((rtt - 1) as int) / (span as int),
                span >= 2,
                rtt >= 1,
        ;
        (whole as u64) + 1
    }
}

/// The longest of `rtts`, `0` where there is none.
pub fn longest_rtt(rtts: &Vec<u64>) -> (r: u64)
    ensures
        r == max_rtt(rtts@),
{
    let mut longest: u64 = 0;
    let mut i: usize = 0;
    while i < rtts.len()
        invariant
            i <= rtts.len(),
            longest == max_rtt(rtts@.take(i as int)),
        decreases rtts.len() - i,
    {
        assert(rtts@.take(i + 1).drop_last() =~= rtts@.take(i as int));
        if rtts[i] > longest {
            longest = rtts[i];
        }
        i += 1;
    }
    assert(rtts@.take(rtts.len() as int) =~= rtts@);
    longest
}

/// What a step of the host's clock led to.
#[derive(Debug, PartialEq, Eq)]
pub enum TickOutcome {
    /// The session is not running: nothing was done.
    NotRunning,
    /// Everybody had sent: the clock advanced, and this is to be broadcast.
    Advanced(ServerSendCommands),
    /// Somebody had not: the clock stands and the failed check is counted.
    Waiting,
    /// Somebody had not, once too often: the session is paused, and these
    /// peers are reported gone.
    Paused(Vec<ClientDisconnect>),
    /// Everybody had sent, but the clock cannot advance.
    Fault(SessionFault),
}

/// The reports that a pause sends out: one for each absent peer, in order.
pub open spec fn disconnects_of(absent: Seq<ClientId>) -> Seq<ClientDisconnect> {
    absent.map_values(|peer: ClientId| ClientDisconnect(peer))
}

/// One step of the host's clock.
///
/// While the session runs, the host looks at what it received for the tick
/// that lies `tick_lookback` ticks back. If it has received anything for that
/// tick and every connected peer has an entry there, the clock advances by
/// one, the count of failed checks starts over,
/// the broadcast log is filled up to the new tick, and the new tick's bundle
/// is handed out for broadcast, empty where nothing was scheduled. If not,
/// the failed check is counted; once more checks have failed in a row than
/// the settings allow, the session is paused and each absent peer reported.
pub fn tick_server(
    state: &mut SimulationState,
    disconnect_timer: &mut u8,
    sim_tick: &mut SimulationTick,
    clients: &Vec<ClientId>,
    rtts: &Vec<u64>,
    commands_received: &LockstepGameCommandsReceived,
    command_history: &mut LockstepGameCommandBuffer,
    settings: &SimulationSettings,
) -> (outcome: TickOutcome)
    requires
        settings.wf(),
        commands_received.wf(),
        old(command_history).wf(),
    ensures
        final(command_history).wf(),
        final(sim_tick).0 != old(sim_tick).0 ==> gate_open(
            commands_received@,
            clients@,
            rtts@,
            old(sim_tick).0,
            *settings,
        ),
        match outcome {
            TickOutcome::NotRunning => {
                &&& *old(state) != SimulationState::Running
                &&& *final(state) == *old(state)
                &&& *final(disconnect_timer) == *old(disconnect_timer)
                &&& *final(sim_tick) == *old(sim_tick)
                &&& final(command_history)@ == old(command_history)@
            },
            TickOutcome::Advanced(broadcast) => {
                &&& *old(state) == SimulationState::Running
                &&& gate_open(commands_received@, clients@, rtts@, old(sim_tick).0, *settings)
                &&& old(sim_tick).0 < SimTick::MAX - 1
                &&& *final(state) == SimulationState::Running
                &&& *final(disconnect_timer) == 0
                &&& final(sim_tick).0 == old(sim_tick).0 + 1
                &&& final(command_history)@ == log_grow(
                    old(command_history)@,
                    (old(sim_tick).0 + 2) as nat,
                )
                &&& broadcast.tick == old(sim_tick).0 + 1
                &&& broadcast.commands@ == log_bundle(
                    old(command_history)@,
                    (old(sim_tick).0 + 1) as SimTick,
                )
                &&& broadcast.commands.wf()
            },
            TickOutcome::Fault(fault) => {
                &&& *old(state) == SimulationState::Running
                &&& gate_open(commands_received@, clients@, rtts@, old(sim_tick).0, *settings)
                &&& old(sim_tick).0 >= SimTick::MAX - 1
                &&& fault == SessionFault::TickOverflow
                &&& *final(state) == *old(state)
                &&& *final(disconnect_timer) == *old(disconnect_timer)
                &&& *final(sim_tick) == *old(sim_tick)
                &&& final(command_history)@ == old(command_history)@
            },
            TickOutcome::Waiting => {
                &&& *old(state) == SimulationState::Running
                &&& !gate_open(commands_received@, clients@, rtts@, old(sim_tick).0, *settings)
                &&& *old(disconnect_timer) < settings.disconnect_tick_threshold
                &&& *final(disconnect_timer) == *old(disconnect_timer) + 1
                &&& *final(state) == *old(state)
                &&& *final(sim_tick) == *old(sim_tick)
                &&& final(command_history)@ == old(command_history)@
            },
            TickOutcome::Paused(gone) => {
                &&& *old(state) == SimulationState::Running
                &&& !gate_open(commands_received@, clients@, rtts@, old(sim_tick).0, *settings)
                &&& *old(disconnect_timer) >= settings.disconnect_tick_threshold
                &&& *final(disconnect_timer) == 0
                &&& *final(state) == SimulationState::Paused
                &&& *final(sim_tick) == *old(sim_tick)
                &&& final(command_history)@ == old(command_history)@
                &&& gone@ == disconnects_of(
                    gate_absent(commands_received@, clients@, rtts@, old(sim_tick).0, *settings),
                )
            },
        },
{
    if *state != SimulationState::Running {
        return TickOutcome::NotRunning;
    }
    let tick = sim_tick.0;
    let lookback: u64 = delay_ticks(longest_rtt(rtts), settings.tick_timestep)
        + settings.connection_check_tick_delay as u64;
    let checked: SimTick = if lookback > tick as u64 {
        0
    } else {
        tick - lookback as u32
    };
    let nothing = LockstepClientCommands::new();
    let slot = commands_received.get(checked);
    let sent = match slot {
        Some(bundle) => bundle,
        None => &nothing,
    };
    assert(sent@ == log_bundle(commands_received@, checked));
    let absent = sent.absent(clients);
    proof {
        lemma_absent_none(sent@, clients@);
    }
    if slot.is_some() && absent.len() == 0 {
        if tick >= SimTick::MAX - 1 {
            return TickOutcome::Fault(SessionFault::TickOverflow);
        }
        let next = tick + 1;
        let ghost before = command_history@;
        command_history.grow_to(next);
        let broadcast = match command_history.get(next) {
            Some(bundle) => bundle.clone(),
            None => LockstepClientCommands::new(),
        };
        assert(broadcast@ == log_bundle(before, next)) by {
            if next < before.len() {
                assert(command_history@[next as int] == before[next as int]);
            }
        }
        sim_tick.0 = next;
        *disconnect_timer = 0;
        TickOutcome::Advanced(ServerSendCommands { tick: next, commands: broadcast })
    } else if *disconnect_timer < settings.disconnect_tick_threshold {
        *disconnect_timer = *disconnect_timer + 1;
        TickOutcome::Waiting
    } else {
        *disconnect_timer = 0;
        *state = SimulationState::Paused;
        let mut gone: Vec<ClientDisconnect> = Vec::new();
        let mut i: usize = 0;
        while i < absent.len()
            invariant
                i <= absent.len(),
                gone.len() == i,
                forall|j: int| 0 <= j < i ==> gone@[j] == ClientDisconnect(absent@[j]),
            decreases absent.len() - i,
        {
            gone.push(ClientDisconnect(absent[i]));
            i += 1;
        }
        assert(gone@ =~= disconnects_of(absent@));
        TickOutcome::Paused(gone)
    }
}

/// A peer takes in a broadcast of the host.
///
/// On the host itself the broadcast only becomes a tick update for the game.
/// Elsewhere it must follow the last one directly, or be the first since the
/// clock was reset; then its bundle is put into the broadcast log at its
/// tick, the clock is set to that tick, and the game is told. A broadcast out
/// of sequence is a fault and changes nothing.
pub fn tick_client(
    tick: &ServerSendCommands,
    sim_tick: &mut SimulationTick,
    command_history: &mut LockstepGameCommandBuffer,
    server_running: bool,
) -> (r: Result<SimulationTickUpdate, SessionFault>)
    requires
        tick.commands.wf(),
        old(command_history).wf(),
    ensures
        final(command_history).wf(),
        r == tick_client_result(tick.tick, old(sim_tick).0, server_running),
        r is Ok && !server_running ==> {
            &&& final(sim_tick).0 == tick.tick
            &&& final(command_history)@ == log_install(
                old(command_history)@,
                tick.tick,
                tick.commands@,
            )
        },
        r is Err || server_running ==> {
            &&& *final(sim_tick) == *old(sim_tick)
            &&& final(command_history)@ == old(command_history)@
        },
{
    if server_running {
        return Ok(SimulationTickUpdate(tick.tick));
    }
    let last = sim_tick.0;
    let in_sequence = last == 0 || (last < SimTick::MAX && tick.tick == last + 1);
    if !in_sequence {
        return Err(SessionFault::OutOfOrderTick);
    }
    if tick.tick == SimTick::MAX {
        return Err(SessionFault::TickOverflow);
    }
    command_history.install(tick.tick, tick.commands.clone());
    sim_tick.0 = tick.tick;
    Ok(SimulationTickUpdate(tick.tick))
}

/// Whether a broadcast for `received` may follow a clock that stands at
/// `last`: it is the next tick, or the clock was just reset.
pub open spec fn in_sequence(received: SimTick, last: SimTick) -> bool {
    last == 0 || received == last + 1
}

/// What taking in a broadcast for `received` answers when the clock stands at
/// `last`.
pub open spec fn tick_client_result(received: SimTick, last: SimTick, server_running: bool)
    -> Result<SimulationTickUpdate, SessionFault> {
    if server_running {
        Ok(SimulationTickUpdate(received))
    } else if !in_sequence(received, last) {
        Err(SessionFault::OutOfOrderTick)
    } else if received == SimTick::MAX {
        Err(SessionFault::TickOverflow)
    } else {
        Ok(SimulationTickUpdate(received))
    }
}

/// A peer takes over the state that the host announces.
pub fn handle_sim_state_change(state: &mut SimulationState, trigger: &SetSimulationState) -> (r:
    SimulationStateChanged)
    ensures
        *final(state) == trigger.0,
        r == (SimulationStateChanged { old: *old(state), new: trigger.0 }),
{
    let change = SimulationStateChanged { old: *state, new: trigger.0 };
    *state = trigger.0;
    change
}

/// Names an entity of the simulation, the same on every peer.
///
/// A peer that asks for an entity to be made does not know its id and sends
/// the placeholder. The id is drawn when the command is executed, which every
/// peer does at the same tick and in the same order.
#[derive(Clone, Copy, Debug, PartialEq, Eq, Hash, Structural)]
pub struct SimulationId(pub u32);

/// The next id to be drawn. One per session.
#[derive(Debug, PartialEq, Eq)]
pub struct SimulationIdCounter(u32);

impl View for SimulationIdCounter {
    type V = u32;

    closed spec fn view(&self) -> u32 {
        self.0
    }
}

/// The number that follows `n`: after the last comes `0`.
pub open spec fn id_after(n: u32) -> u32 {
    if n == u32::MAX {
        0
    } else {
        (n + 1) as u32
    }
}

/// Where a counter that stood at `start` stands after `draws` ids were drawn.
pub open spec fn counter_after(start: u32, draws: nat) -> u32
    decreases draws,
{
    if draws == 0 {
        start
    } else {
        id_after(counter_after(start, (draws - 1) as nat))
    }
}

/// How many of `commands` are of the kind `kind`.
pub open spec fn count_kind(commands: Seq<CommandView>, kind: u16) -> nat
    decreases commands.len(),
{
    if commands.len() == 0 {
        0
    } else {
        count_kind(commands.drop_last(), kind) + if commands.last().type_id == kind {
            1nat
        } else {
            0nat
        }
    }
}

/// How many commands of the kind `kind` the bundle `b` holds.
pub open spec fn bundle_count_kind(b: BundleView, kind: u16) -> nat
    decreases b.len(),
{
    if b.len() == 0 {
        0
    } else {
        bundle_count_kind(b.drop_last(), kind) + count_kind(b.last().1, kind)
    }
}

/// How many commands of the kind `kind` are executed from tick `1` through
/// tick `through` by a peer with the broadcast log `log`.
pub open spec fn log_count_kind(log: LogView, through: SimTick, kind: u16) -> nat
    decreases through,
{
    if through == 0 {
        0
    } else {
        log_count_kind(log, (through - 1) as SimTick, kind) + bundle_count_kind(
            log_bundle(log, through),
            kind,
        )
    }
}

impl Default for SimulationIdCounter {
    fn default() -> (r: Self)
        ensures
            r@ == 1,
    {
        SimulationIdCounter::new()
    }
}

impl SimulationIdCounter {
    /// A counter whose first id is `1`.
    pub fn new() -> (r: Self)
        ensures
            r@ == 1,
    {
        SimulationIdCounter(1)
    }

    /// Starts over: the next id is `1` again.
    pub fn reset(&mut self)
        ensures
            final(self)@ == 1,
    {
        self.0 = 1;
    }

    /// Draws an id for each command of the kind `kind` in `bundle`, in the
    /// order in which a bundle is executed: peer by peer in ascending order,
    /// each peer's commands as they were submitted. The ids come back in
    /// that order.
    pub fn draw_for(&mut self, bundle: &LockstepClientCommands, kind: u16) -> (ids: Vec<
        SimulationId,
    >)
        ensures
            ids@.len() == bundle_count_kind(bundle@, kind),
            forall|k: int|
                0 <= k < ids@.len() ==> (#[trigger] ids@[k]).0 == counter_after(
                    old(self)@,
                    k as nat,
                ),
            final(self)@ == counter_after(old(self)@, ids@.len()),
    {
        let ghost start = self@;
        let entries = bundle.entries();
        let mut ids: Vec<SimulationId> = Vec::new();
        let mut i: usize = 0;
        assert(bundle@.take(0) =~= BundleView::empty());
        while i < entries.len()
            invariant
                i <= entries@.len(),
                entries@.len() == bundle@.len(),
                forall|k: int|
                    0 <= k < entries@.len() ==> (#[trigger] entries@[k]).1.deep_view()
                        == bundle@[k].1,
                ids@.len() == bundle_count_kind(bundle@.take(i as int), kind),
                forall|k: int|
                    0 <= k < ids@.len() ==> (#[trigger] ids@[k]).0 == counter_after(
                        start,
                        k as nat,
                    ),
                self@ == counter_after(start, ids@.len()),
            decreases entries@.len() - i,
        {
            let commands = entries[i].1;
            let ghost before = ids@.len();
            let ghost all = commands.deep_view();
            let mut j: usize = 0;
            assert(all.take(0) =~= Seq::<CommandView>::empty());
            while j < commands.len()
                invariant
                    j <= commands.len(),
                    all == commands.deep_view(),
                    ids@.len() == before + count_kind(all.take(j as int), kind),
                    forall|k: int|
                        0 <= k < ids@.len() ==> (#[trigger] ids@[k]).0 == counter_after(
                            start,
                            k as nat,
                        ),
                    self@ == counter_after(start, ids@.len()),
                decreases commands.len() - j,
            {
                assert(all.take(j + 1).drop_last() =~= all.take(j as int));
                assert(all.take(j + 1).last() == commands@[j as int]@);
                if commands[j].type_id == kind {
                    let id = SimulationId::new(self);
                    ids.push(id);
                }
                j += 1;
            }
            proof {
                assert(all.take(commands.len() as int) =~= all);
                assert(bundle@.take(i + 1).drop_last() =~= bundle@.take(i as int));
                assert(bundle@.take(i + 1).last().1 == all);
            }
            i += 1;
        }
        assert(bundle@.take(bundle@.len() as int) =~= bundle@);
        ids
    }

    /// The id that is drawn next.
    pub fn peek(&self) -> (r: SimulationId)
        ensures
            r.0 == self@,
    {
        SimulationId(self.0)
    }
}

impl SimulationId {
    /// What a peer sends in place of an id that is yet to be drawn: `0`.
    pub fn placeholder() -> (r: Self)
        ensures
            r.0 == 0,
    {
        SimulationId(0)
    }

    /// Whether this stands in for an id that is yet to be drawn.
    pub fn is_placeholder(&self) -> (r: bool)
        ensures
            r == (self.0 == 0),
    {
        self.0 == 0
    }

    /// Draws the next id from `counter`. Call it where a command that makes
    /// an entity is executed, never where one is sent.
    pub fn new(counter: &mut SimulationIdCounter) -> (r: Self)
        ensures
            r.0 == old(counter)@,
            final(counter)@ == id_after(old(counter)@),
    {
        let id = counter.0;
        counter.0 = if id == u32::MAX {
            0
        } else {
            id + 1
        };
        SimulationId(id)
    }
}

/// Finds the game's entity for an id. An entity is known to the coordinator
/// by a number only.
pub struct SimulationIdEntityMap(HashMap<u32, u64>);

impl View for SimulationIdEntityMap {
    type V = Map<u32, u64>;

    closed spec fn view(&self) -> Map<u32, u64> {
        self.0@
    }
}

impl Default for SimulationIdEntityMap {
    fn default() -> (r: Self)
        ensures
            r@ == Map::<u32, u64>::empty(),
    {
        SimulationIdEntityMap::new()
    }
}

impl SimulationIdEntityMap {
    /// A map without entries.
    pub fn new() -> (r: Self)
        ensures
            r@ == Map::<u32, u64>::empty(),
    {
        SimulationIdEntityMap(HashMap::new())
    }

    /// How many ids have an entity.
    pub fn len(&self) -> (r: usize)
        ensures
            r == self@.len(),
    {
        self.0.len()
    }

    /// Notes `entity` for `id`, in place of what was noted for it before.
    pub fn insert(&mut self, id: SimulationId, entity: u64)
        ensures
            final(self)@ == old(self)@.insert(id.0, entity),
    {
        self.0.insert(id.0, entity);
    }

    /// The entity noted for `id`.
    pub fn get(&self, id: SimulationId) -> (r: Option<u64>)
        ensures
            r == if self@.contains_key(id.0) {
                Some(self@[id.0])
            } else {
                None
            },
    {
        match self.0.get(&id.0) {
            Some(entity) => Some(*entity),
            None => None,
        }
    }

    /// Forgets every entry.
    pub fn clear(&mut self)
        ensures
            final(self)@ == Map::<u32, u64>::empty(),
    {
        self.0.clear();
    }
}

/// `map` after each of `new_ids`, an entity and its id, was noted in turn.
pub open spec fn cached(map: Map<u32, u64>, new_ids: Seq<(u64, SimulationId)>) -> Map<u32, u64>
    decreases new_ids.len(),
{
    if new_ids.len() == 0 {
        map
    } else {
        cached(map, new_ids.drop_last()).insert(new_ids.last().1.0, new_ids.last().0)
    }
}

/// Notes the entities that have just been given an id.
pub fn cache_ids(new_ids: &Vec<(u64, SimulationId)>, id_map: &mut SimulationIdEntityMap)
    ensures
        final(id_map)@ == cached(old(id_map)@, new_ids@),
{
    let ghost before = id_map@;
    let mut i: usize = 0;
    assert(new_ids@.take(0) =~= Seq::<(u64, SimulationId)>::empty());
    while i < new_ids.len()
        invariant
            i <= new_ids.len(),
            id_map@ == cached(before, new_ids@.take(i as int)),
        decreases new_ids.len() - i,
    {
        assert(new_ids@.take(i + 1).drop_last() =~= new_ids@.take(i as int));
        let (entity, id) = new_ids[i];
        id_map.insert(id, entity);
        i += 1;
    }
    assert(new_ids@.take(new_ids.len() as int) =~= new_ids@);
}

/// Makes a peer ready for a new run: the clock at `0`, both logs and the map
/// of entities empty, the next id `1`.
pub fn setup_simulation(
    sim_tick: &mut SimulationTick,
    command_history: &mut LockstepGameCommandBuffer,
    commands_received: &mut LockstepGameCommandsReceived,
    id_entity_map: &mut SimulationIdEntityMap,
    id_counter: &mut SimulationIdCounter,
)
    ensures
        final(sim_tick).0 == 0,
        final(command_history)@ == LogView::empty(),
        final(command_history).wf(),
        final(commands_received)@ == LogView::empty(),
        final(commands_received).wf(),
        final(id_entity_map)@ == Map::<u32, u64>::empty(),
        final(id_counter)@ == 1,
{
    sim_tick.0 = 0;
    command_history.clear();
    commands_received.clear();
    id_entity_map.clear();
    id_counter.reset();
}

/// The session starts. A host tells every peer to run and takes the ready
/// marks back, so that the next setup begins without them. Any other process
/// does nothing.
pub fn start_simulation(server_running: bool, peers: &mut Peers) -> (r: Option<SetSimulationState>)
    requires
        old(peers).wf(),
    ensures
        final(peers).wf(),
        server_running ==> r == Some(SetSimulationState(SimulationState::Running)) && final(peers)@ == none_ready(old(peers)@),
        !server_running ==> r is None && final(peers)@ == old(peers)@,
{
    if server_running {
        peers.clear_ready();
        Some(SetSimulationState(SimulationState::Running))
    } else {
        None
    }
}

} // verus!
