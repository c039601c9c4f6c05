//! What a session guarantees, stated over a model of a host, one of its
//! peers and the ordered channel between them.
//!
//! The model moves by the same functions on logs by which the coordinator's
//! own operations are specified, so what is proved of the model holds of any
//! run that is made of those operations.

use crate::commands::{
    execute_tick, log_bundle, log_grow, log_install, log_record, BundleView,
    CommandView, LogView, ServerSendCommandsView,
};
use crate::connections::ClientId;
use crate::simulation::{
    counter_after, id_after, in_sequence, log_count_kind, tick_client_result, SessionFault,
    SimTick, SimulationSettings, SimulationTickUpdate,
};
use vstd::prelude::*;

verus! {

/// A host, one peer, and the broadcasts that are under way from the one to
/// the other, oldest first.
pub struct SessionView {
    pub host_tick: SimTick,
    pub host_log: LogView,
    pub peer_tick: SimTick,
    pub peer_log: LogView,
    pub in_flight: Seq<ServerSendCommandsView>,
}

/// A session in which nothing has happened since the last reset.
pub open spec fn fresh_session() -> SessionView {
    SessionView {
        host_tick: 0,
        host_log: LogView::empty(),
        peer_tick: 0,
        peer_log: LogView::empty(),
        in_flight: Seq::empty(),
    }
}

/// The session after the host advanced its clock by one and broadcast the
/// new tick's bundle.
pub open spec fn host_advances(s: SessionView) -> SessionView {
    let next = (s.host_tick + 1) as SimTick;
    SessionView {
        host_tick: next,
        host_log: log_grow(s.host_log, (next + 1) as nat),
        peer_tick: s.peer_tick,
        peer_log: s.peer_log,
        in_flight: s.in_flight.push(
            ServerSendCommandsView { tick: next, commands: log_bundle(s.host_log, next) },
        ),
    }
}

/// The session after the host scheduled `commands` of `peer` for the tick
/// `at`.
pub open spec fn host_schedules(
    s: SessionView,
    at: SimTick,
    peer: ClientId,
    commands: Seq<CommandView>,
) -> SessionView {
    SessionView {
        host_tick: s.host_tick,
        host_log: log_record(s.host_log, at, peer, commands),
        peer_tick: s.peer_tick,
        peer_log: s.peer_log,
        in_flight: s.in_flight,
    }
}

/// The session after the peer took in the oldest broadcast under way.
pub open spec fn peer_ingests(s: SessionView) -> SessionView {
    let broadcast = s.in_flight[0];
    SessionView {
        host_tick: s.host_tick,
        host_log: s.host_log,
        peer_tick: broadcast.tick,
        peer_log: log_install(s.peer_log, broadcast.tick, broadcast.commands),
        in_flight: s.in_flight.skip(1),
    }
}

/// Host and peer agree: the host's clock is within its range, each log
/// reaches the tick of its owner once that has left `0`, the peer is behind
/// the host by exactly the
/// broadcasts under way, each of which carries what the host's log holds at
/// its tick, and at every tick that the peer has reached both logs hold the
/// same bundle.
pub open spec fn agrees(s: SessionView) -> bool {
    &&& s.host_tick < SimTick::MAX
    &&& s.host_tick == 0 || s.host_tick < s.host_log.len()
    &&& s.peer_tick == 0 || s.peer_tick < s.peer_log.len()
    &&& s.peer_tick + s.in_flight.len() == s.host_tick
    &&& forall|t: SimTick|
        0 < t <= s.peer_tick ==> #[trigger] log_bundle(s.peer_log, t) == log_bundle(s.host_log, t)
    &&& forall|i: int|
        0 <= i < s.in_flight.len() ==> (#[trigger] s.in_flight[i]).tick == s.peer_tick + 1 + i
            && s.in_flight[i].commands == log_bundle(s.host_log, s.in_flight[i].tick)
}

/// Filling a log up changes the bundle of no tick.
pub proof fn lemma_grow_keeps(log: LogView, size: nat, tick: SimTick)
    ensures
        log_bundle(log_grow(log, size), tick) == log_bundle(log, tick),
{
}

/// Setting a peer's entry at one tick changes the bundle of no other tick.
pub proof fn lemma_record_keeps(
    log: LogView,
    at: SimTick,
    peer: ClientId,
    commands: Seq<CommandView>,
    tick: SimTick,
)
    requires
        tick != at,
    ensures
        log_bundle(log_record(log, at, peer, commands), tick) == log_bundle(log, tick),
{
}

/// Setting the bundle of one tick makes it the bundle of that tick and
/// changes the bundle of no other.
pub proof fn lemma_install_keeps(log: LogView, at: SimTick, bundle: BundleView, tick: SimTick)
    ensures
        log_bundle(log_install(log, at, bundle), tick) == if tick == at {
            bundle
        } else {
            log_bundle(log, tick)
        },
{
}

/// A fresh session agrees.
pub proof fn lemma_fresh_agrees()
    ensures
        agrees(fresh_session()),
{
}

/// Agreement survives an advance of the host.
pub proof fn lemma_advance_agrees(s: SessionView)
    requires
        agrees(s),
        s.host_tick < SimTick::MAX - 1,
    ensures
        agrees(host_advances(s)),
{
    let after = host_advances(s);
    assert forall|t: SimTick| 0 < t <= after.peer_tick implies #[trigger] log_bundle(
        after.peer_log,
        t,
    ) == log_bundle(after.host_log, t) by {
        lemma_grow_keeps(s.host_log, (s.host_tick + 2) as nat, t);
        assert(log_bundle(s.peer_log, t) == log_bundle(s.host_log, t));
    }
    assert forall|i: int| 0 <= i < after.in_flight.len() implies (
    #[trigger] after.in_flight[i]).tick == after.peer_tick + 1 + i && after.in_flight[i].commands
        == log_bundle(after.host_log, after.in_flight[i].tick) by {
        lemma_grow_keeps(s.host_log, (s.host_tick + 2) as nat, after.in_flight[i].tick);
        if i < s.in_flight.len() {
            assert(after.in_flight[i] == s.in_flight[i]);
        }
    }
}

/// Agreement survives the scheduling of commands for a tick that the host
/// has not reached yet.
pub proof fn lemma_schedule_agrees(
    s: SessionView,
    at: SimTick,
    peer: ClientId,
    commands: Seq<CommandView>,
)
    requires
        agrees(s),
        at > s.host_tick,
    ensures
        agrees(host_schedules(s, at, peer, commands)),
{
    let after = host_schedules(s, at, peer, commands);
    assert forall|t: SimTick| 0 < t <= after.peer_tick implies #[trigger] log_bundle(
        after.peer_log,
        t,
    ) == log_bundle(after.host_log, t) by {
        lemma_record_keeps(s.host_log, at, peer, commands, t);
        assert(log_bundle(s.peer_log, t) == log_bundle(s.host_log, t));
    }
    assert forall|i: int| 0 <= i < after.in_flight.len() implies (
    #[trigger] after.in_flight[i]).tick == after.peer_tick + 1 + i && after.in_flight[i].commands
        == log_bundle(after.host_log, after.in_flight[i].tick) by {
        assert(after.in_flight[i] == s.in_flight[i]);
        lemma_record_keeps(s.host_log, at, peer, commands, s.in_flight[i].tick);
    }
}

/// On an ordered channel the oldest broadcast under way is always in
/// sequence for the peer, and agreement survives its being taken in.
pub proof fn lemma_ingest_agrees(s: SessionView)
    requires
        agrees(s),
        s.in_flight.len() > 0,
    ensures
        tick_client_result(s.in_flight[0].tick, s.peer_tick, false) == Ok::<
            SimulationTickUpdate,
            SessionFault,
        >(SimulationTickUpdate(s.in_flight[0].tick)),
        agrees(peer_ingests(s)),
{
    let after = peer_ingests(s);
    let broadcast = s.in_flight[0];
    assert(in_sequence(broadcast.tick, s.peer_tick));
    assert forall|t: SimTick| 0 < t <= after.peer_tick implies #[trigger] log_bundle(
        after.peer_log,
        t,
    ) == log_bundle(after.host_log, t) by {
        lemma_install_keeps(s.peer_log, broadcast.tick, broadcast.commands, t);
        if t != broadcast.tick {
            assert(log_bundle(s.peer_log, t) == log_bundle(s.host_log, t));
        }
    }
    assert forall|i: int| 0 <= i < after.in_flight.len() implies (
    #[trigger] after.in_flight[i]).tick == after.peer_tick + 1 + i && after.in_flight[i].commands
        == log_bundle(after.host_log, after.in_flight[i].tick) by {
        assert(after.in_flight[i] == s.in_flight[i + 1]);
    }
}

/// Two peers that each agree with the host hold the same bundle at every
/// tick that both have reached.
pub proof fn lemma_peers_hold_the_same(a: SessionView, b: SessionView, tick: SimTick)
    requires
        agrees(a),
        agrees(b),
        a.host_log == b.host_log,
        0 < tick <= a.peer_tick,
        tick <= b.peer_tick,
    ensures
        log_bundle(a.peer_log, tick) == log_bundle(b.peer_log, tick),
{
    assert(log_bundle(a.peer_log, tick) == log_bundle(a.host_log, tick));
    assert(log_bundle(b.peer_log, tick) == log_bundle(b.host_log, tick));
}

/// Commands are executed strictly after the tick at which they were issued:
/// a peer never issues at a tick that the host has not reached, and the host
/// puts them off by at least one tick whenever the sender has no round trip
/// (the host itself), a round trip above zero, or the base delay is not zero.
pub proof fn lemma_executed_after_issued(
    issued: SimTick,
    current: SimTick,
    rtt: Option<u64>,
    settings: SimulationSettings,
)
    requires
        settings.wf(),
        issued <= current,
        rtt is None || rtt->Some_0 > 0 || settings.base_input_tick_delay > 0,
    ensures
        execute_tick(current, rtt, settings) > issued,
        execute_tick(current, rtt, settings) > current,
{
    if rtt is Some && rtt->Some_0 > 0 {
        let span = 2 * settings.tick_timestep;
        assert((rtt->Some_0 - 1) / span >= 0) by (nonlinear_arith)
            requires
                rtt->Some_0 - 1 >= 0,
                span > 0,
        ;
    }
}

/// Where a counter stands depends only on where it stood and on how many ids
/// were drawn since: it has moved on by that many, past the end of its range
/// back to `0`.
pub proof fn lemma_counter_after(start: u32, draws: nat)
    ensures
        counter_after(start, draws) == (start + draws) % 0x1_0000_0000,
    decreases draws,
{
    if draws > 0 {
        lemma_counter_after(start, (draws - 1) as nat);
        let before = counter_after(start, (draws - 1) as nat);
        assert(id_after(before) == (before + 1) % 0x1_0000_0000);
        assert((start + draws) % 0x1_0000_0000 == ((start + draws - 1) % 0x1_0000_0000 + 1)
            % 0x1_0000_0000) by {
            vstd::arithmetic::div_mod::lemma_add_mod_noop(start + draws - 1, 1, 0x1_0000_0000);
        }
    }
}

/// Two peers that each agree with the host have executed the same number of
/// commands of any kind through every tick that both have reached. Where the
/// commands of one kind are those that draw an id, their counters, alike at
/// the reset, are alike after that tick.
pub proof fn lemma_same_stream_same_ids(
    a: SessionView,
    b: SessionView,
    through: SimTick,
    kind: u16,
    start: u32,
)
    requires
        agrees(a),
        agrees(b),
        a.host_log == b.host_log,
        through <= a.peer_tick,
        through <= b.peer_tick,
    ensures
        log_count_kind(a.peer_log, through, kind) == log_count_kind(b.peer_log, through, kind),
        counter_after(start, log_count_kind(a.peer_log, through, kind)) == counter_after(
            start,
            log_count_kind(b.peer_log, through, kind),
        ),
    decreases through,
{
    if through > 0 {
        lemma_same_stream_same_ids(a, b, (through - 1) as SimTick, kind, start);
        lemma_peers_hold_the_same(a, b, through);
    }
}

} // verus!
