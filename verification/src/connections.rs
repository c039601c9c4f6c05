//! Who takes part in a session: peer identities, readiness, and what a lost
//! connection leads to.

use crate::simulation::{SessionFault, SetSimulationState, SimulationSettings, SimulationState};
use vstd::prelude::*;

verus! {

/// Identifies a peer for as long as its connection lasts.
pub type ClientId = u64;

/// The id of the peer that the host process plays itself.
pub const HOST_CLIENT_ID: ClientId = 1;

/// Whether the host process also plays a peer.
#[derive(Clone, Copy, Debug, PartialEq, Eq, Structural)]
pub enum ServerMode {
    /// The host plays the peer with id `1`.
    Host,
    /// The host only coordinates.
    Dedicated,
}

impl Default for ServerMode {
    fn default() -> (r: Self)
        ensures
            r == ServerMode::Host,
    {
        ServerMode::Host
    }
}

/// How to reach the host, and how long a peer may try to come back.
#[derive(Clone, Copy, Debug, PartialEq, Eq)]
pub struct ConnectionSettings {
    pub server_mode: ServerMode,
    /// The host's IPv4 address, most significant part first.
    pub server_address: [u8; 4],
    pub server_port: u16,
    /// How long a peer that lost its connection tries to get it back, in
    /// nanoseconds.
    pub reconnect_timer: u64,
}

impl Default for ConnectionSettings {
    fn default() -> (r: Self)
        ensures
            r.server_mode == ServerMode::Host,
            r.server_address@ == seq![127u8, 0u8, 0u8, 1u8],
            r.server_port == 15342,
            r.reconnect_timer == 5_000_000_000,
    {
        let r = ConnectionSettings {
            server_mode: ServerMode::Host,
            server_address: [127, 0, 0, 1],
            server_port: 15342,
            reconnect_timer: 5_000_000_000,
        };
        assert(r.server_address@ =~= seq![127u8, 0u8, 0u8, 1u8]);
        r
    }
}

/// Says that this peer lost its connection and now tries to get it back.
#[derive(Clone, Copy, Debug, PartialEq, Eq, Structural)]
pub struct ClientReconnect;

/// Says that the peer with this id is gone. A host emits it for each peer
/// whose input stayed away; a peer emits it for itself when its time to
/// reconnect has run out.
#[derive(Clone, Copy, Debug, PartialEq, Eq, Structural)]
pub struct ClientDisconnect(pub ClientId);

/// A peer's report to the host that it has finished its setup.
#[derive(Clone, Copy, Debug, PartialEq, Eq, Structural)]
pub struct ClientReadyEvent;

/// A peer's question to the host which of the peers it is itself.
#[derive(Clone, Copy, Debug, PartialEq, Eq, Structural)]
pub struct LocalClientIdRequestEvent;

/// The host's answer to that question.
#[derive(Clone, Copy, Debug, PartialEq, Eq, Structural)]
pub struct LocalClientIdResponseEvent(pub ClientId);

/// Marks the peer that this process plays.
#[derive(Clone, Copy, Debug, PartialEq, Eq, Structural)]
pub struct LocalClient;

/// Marks a peer that has finished its setup.
#[derive(Clone, Copy, Debug, PartialEq, Eq, Structural)]
pub struct ClientReady;

/// What a process knows of one peer.
#[derive(Clone, Copy, Debug, PartialEq, Eq, Structural)]
pub struct Peer {
    pub id: ClientId,
    /// Set on the peer that this process plays.
    pub local: Option<LocalClient>,
    /// Set once the peer has finished its setup.
    pub ready: Option<ClientReady>,
}

/// Whether no id occurs twice among `peers`.
pub open spec fn distinct_ids(peers: Seq<Peer>) -> bool {
    forall|i: int, j: int| 0 <= i < j < peers.len() ==> peers[i].id != peers[j].id
}

/// Whether one of `peers` has the id `id`.
pub open spec fn has_peer(peers: Seq<Peer>, id: ClientId) -> bool {
    exists|i: int| 0 <= i < peers.len() && peers[i].id == id
}

/// The place of the first of `peers` with the id `id`, or the length of
/// `peers` where there is none.
pub open spec fn peer_index(peers: Seq<Peer>, id: ClientId) -> int
    decreases peers.len(),
{
    if peers.len() == 0 || peers[0].id == id {
        0
    } else {
        1 + peer_index(peers.skip(1), id)
    }
}

/// Whether each of `peers` has finished its setup.
pub open spec fn all_ready(peers: Seq<Peer>) -> bool {
    forall|i: int| 0 <= i < peers.len() ==> (#[trigger] peers[i]).ready is Some
}

/// How many of `peers` are marked as the peer that this process plays.
pub open spec fn local_count(peers: Seq<Peer>) -> nat
    decreases peers.len(),
{
    if peers.len() == 0 {
        0
    } else {
        local_count(peers.drop_last()) + if peers.last().local is Some {
            1nat
        } else {
            0nat
        }
    }
}

/// The ids of `peers`, in their order.
pub open spec fn peer_ids(peers: Seq<Peer>) -> Seq<ClientId> {
    peers.map_values(|p: Peer| p.id)
}

/// `peers` with nobody ready.
pub open spec fn none_ready(peers: Seq<Peer>) -> Seq<Peer> {
    peers.map_values(|p: Peer| Peer { id: p.id, local: p.local, ready: None })
}

/// `peer_index` finds a peer exactly where there is one with that id.
pub proof fn lemma_peer_index(peers: Seq<Peer>, id: ClientId)
    ensures
        0 <= peer_index(peers, id) <= peers.len(),
        peer_index(peers, id) < peers.len() <==> has_peer(peers, id),
        peer_index(peers, id) < peers.len() ==> peers[peer_index(peers, id)].id == id,
        forall|j: int| 0 <= j < peer_index(peers, id) ==> peers[j].id != id,
    decreases peers.len(),
{
    if !(peers.len() == 0 || peers[0].id == id) {
        let tail = peers.skip(1);
        lemma_peer_index(tail, id);
        let k = peer_index(tail, id);
        if k < tail.len() {
            assert(tail[k] == peers[k + 1]);
        }
        assert forall|j: int| 0 <= j < k + 1 implies peers[j].id != id by {
            if j > 0 {
                assert(tail[j - 1] == peers[j]);
            }
        }
        if has_peer(peers, id) {
            let i = choose|i: int| 0 <= i < peers.len() && peers[i].id == id;
            assert(tail[i - 1] == peers[i]);
        }
    }
}

/// The place where a scan from the front stops is `peer_index`.
pub proof fn lemma_peer_index_is(peers: Seq<Peer>, id: ClientId, k: int)
    requires
        0 <= k <= peers.len(),
        forall|j: int| 0 <= j < k ==> peers[j].id != id,
        k < peers.len() ==> peers[k].id == id,
    ensures
        peer_index(peers, id) == k,
    decreases k,
{
    if k > 0 {
        let tail = peers.skip(1);
        assert forall|j: int| 0 <= j < k - 1 implies tail[j].id != id by {
            assert(tail[j] == peers[j + 1]);
        }
        lemma_peer_index_is(tail, id, k - 1);
    }
}

/// The peers of a session as one process sees them.
#[derive(Debug, PartialEq, Eq)]
pub struct Peers {
    list: Vec<Peer>,
}

impl View for Peers {
    type V = Seq<Peer>;

    closed spec fn view(&self) -> Seq<Peer> {
        self.list@
    }
}

impl Default for Peers {
    fn default() -> (r: Self)
        ensures
            r@ == Seq::<Peer>::empty(),
            r.wf(),
    {
        Peers::new()
    }
}

impl Peers {
    /// The invariant of the list: no id occurs twice.
    pub open spec fn wf(&self) -> bool {
        distinct_ids(self@)
    }

    /// Nobody.
    pub fn new() -> (r: Self)
        ensures
            r@ == Seq::<Peer>::empty(),
            r.wf(),
    {
        Peers { list: Vec::new() }
    }

    /// How many peers there are.
    pub fn len(&self) -> (r: usize)
        ensures
            r == self@.len(),
    {
        self.list.len()
    }

    /// The peer at place `index`.
    pub fn peer_at(&self, index: usize) -> (r: Peer)
        requires
            index < self@.len(),
        ensures
            r == self@[index as int],
    {
        self.list[index]
    }

    /// The place of the peer with the id `id`, or the number of peers where
    /// there is none.
    fn index_of(&self, id: ClientId) -> (r: usize)
        ensures
            r == peer_index(self@, id),
            r <= self@.len(),
            r < self@.len() <==> has_peer(self@, id),
            r < self@.len() ==> self@[r as int].id == id,
    {
        let mut i: usize = 0;
        while i < self.list.len() && self.list[i].id != id
            invariant
                i <= self.list.len(),
                forall|j: int| 0 <= j < i ==> self@[j].id != id,
            decreases self.list.len() - i,
        {
            i += 1;
        }
        proof {
            lemma_peer_index_is(self@, id, i as int);
            lemma_peer_index(self@, id);
        }
        i
    }

    /// Whether there is a peer with the id `id`.
    pub fn contains(&self, id: ClientId) -> (r: bool)
        ensures
            r == has_peer(self@, id),
    {
        self.index_of(id) < self.list.len()
    }

    /// The peer with the id `id`, if there is one.
    pub fn get(&self, id: ClientId) -> (r: Option<Peer>)
        ensures
            match r {
                Some(peer) => has_peer(self@, id) && peer == self@[peer_index(self@, id)],
                None => !has_peer(self@, id),
            },
    {
        let i = self.index_of(id);
        if i < self.list.len() {
            Some(self.list[i])
        } else {
            None
        }
    }

    /// Takes in a newly connected peer, neither local nor ready. Answers
    /// `false`, and changes nothing, where a peer with that id is known.
    pub fn connect(&mut self, id: ClientId) -> (r: bool)
        requires
            old(self).wf(),
        ensures
            final(self).wf(),
            r == !has_peer(old(self)@, id),
            r ==> final(self)@ == old(self)@.push(Peer { id, local: None, ready: None }),
            !r ==> final(self)@ == old(self)@,
    {
        if self.contains(id) {
            false
        } else {
            self.list.push(Peer { id, local: None, ready: None });
            true
        }
    }

    /// Drops the peer with the id `id`. Answers `false`, and changes nothing,
    /// where there is none.
    pub fn disconnect(&mut self, id: ClientId) -> (r: bool)
        requires
            old(self).wf(),
        ensures
            final(self).wf(),
            r == has_peer(old(self)@, id),
            r ==> final(self)@ == old(self)@.remove(peer_index(old(self)@, id)),
            !r ==> final(self)@ == old(self)@,
            !has_peer(final(self)@, id),
    {
        let i = self.index_of(id);
        if i < self.list.len() {
            let ghost before = self@;
            self.list.remove(i);
            proof {
                if has_peer(self@, id) {
                    let j = choose|j: int| 0 <= j < self@.len() && self@[j].id == id;
                    if j < i {
                        assert(before[j].id == id);
                    } else {
                        assert(before[j + 1].id == id);
                    }
                }
            }
            true
        } else {
            false
        }
    }

    /// Marks the peer with the id `id` as ready. Answers `false`, and changes
    /// nothing, where there is none.
    pub fn mark_ready(&mut self, id: ClientId) -> (r: bool)
        requires
            old(self).wf(),
        ensures
            final(self).wf(),
            r == has_peer(old(self)@, id),
            r ==> final(self)@ == old(self)@.update(
                peer_index(old(self)@, id),
                Peer {
                    id,
                    local: old(self)@[peer_index(old(self)@, id)].local,
                    ready: Some(ClientReady),
                },
            ),
            !r ==> final(self)@ == old(self)@,
    {
        let i = self.index_of(id);
        if i < self.list.len() {
            let peer = self.list[i];
            self.list.set(i, Peer { id: peer.id, local: peer.local, ready: Some(ClientReady) });
            true
        } else {
            false
        }
    }

    /// Marks the peer with the id `id` as the peer that this process plays.
    /// Answers `false`, and changes nothing, where there is none.
    pub fn mark_local(&mut self, id: ClientId) -> (r: bool)
        requires
            old(self).wf(),
        ensures
            final(self).wf(),
            r == has_peer(old(self)@, id),
            r ==> final(self)@ == old(self)@.update(
                peer_index(old(self)@, id),
                Peer {
                    id,
                    local: Some(LocalClient),
                    ready: old(self)@[peer_index(old(self)@, id)].ready,
                },
            ),
            !r ==> final(self)@ == old(self)@,
    {
        let i = self.index_of(id);
        if i < self.list.len() {
            let peer = self.list[i];
            self.list.set(i, Peer { id: peer.id, local: Some(LocalClient), ready: peer.ready });
            true
        } else {
            false
        }
    }

    /// Takes the ready mark from every peer.
    pub fn clear_ready(&mut self)
        requires
            old(self).wf(),
        ensures
            final(self).wf(),
            final(self)@ == none_ready(old(self)@),
    {
        let ghost before = self@;
        let mut i: usize = 0;
        while i < self.list.len()
            invariant
                i <= self.list.len(),
                self@.len() == before.len(),
                forall|j: int|
                    0 <= j < i ==> self@[j] == (Peer {
                        id: before[j].id,
                        local: before[j].local,
                        ready: None,
                    }),
                forall|j: int| i <= j < before.len() ==> self@[j] == before[j],
            decreases self.list.len() - i,
        {
            let peer = self.list[i];
            self.list.set(i, Peer { id: peer.id, local: peer.local, ready: None });
            i += 1;
        }
        assert(self@ =~= none_ready(before));
    }

    /// Whether every peer is ready.
    pub fn all_ready(&self) -> (r: bool)
        ensures
            r == all_ready(self@),
    {
        let mut i: usize = 0;
        while i < self.list.len()
            invariant
                i <= self.list.len(),
                forall|j: int| 0 <= j < i ==> (#[trigger] self@[j]).ready is Some,
            decreases self.list.len() - i,
        {
            if self.list[i].ready.is_none() {
                return false;
            }
            i += 1;
        }
        true
    }

    /// How many peers are marked as the peer that this process plays.
    pub fn local_count(&self) -> (r: usize)
        ensures
            r == local_count(self@),
    {
        let mut count: usize = 0;
        let mut i: usize = 0;
        assert(self@.take(0) =~= Seq::<Peer>::empty());
        while i < self.list.len()
            invariant
                i <= self.list.len(),
                count <= i,
                count == local_count(self@.take(i as int)),
            decreases self.list.len() - i,
        {
            assert(self@.take(i + 1).drop_last() =~= self@.take(i as int));
            if self.list[i].local.is_some() {
                count += 1;
            }
            i += 1;
        }
        assert(self@.take(self.list.len() as int) =~= self@);
        count
    }

    /// The id of the first peer that is marked as the peer that this process
    /// plays.
    pub fn local_id(&self) -> (r: Option<ClientId>)
        ensures
            match r {
                Some(id) => exists|i: int|
                    0 <= i < self@.len() && self@[i].local is Some && self@[i].id == id && forall|
                        j: int,
                    | 0 <= j < i ==> self@[j].local is None,
                None => forall|i: int| 0 <= i < self@.len() ==> self@[i].local is None,
            },
    {
        let mut i: usize = 0;
        while i < self.list.len()
            invariant
                i <= self.list.len(),
                forall|j: int| 0 <= j < i ==> self@[j].local is None,
            decreases self.list.len() - i,
        {
            if self.list[i].local.is_some() {
                return Some(self.list[i].id);
            }
            i += 1;
        }
        None
    }

    /// The ids of the peers, in their order.
    pub fn ids(&self) -> (r: Vec<ClientId>)
        ensures
            r@ == peer_ids(self@),
    {
        let mut out: Vec<ClientId> = Vec::new();
        let mut i: usize = 0;
        while i < self.list.len()
            invariant
                i <= self.list.len(),
                out.len() == i,
                forall|j: int| 0 <= j < i ==> out@[j] == self@[j].id,
            decreases self.list.len() - i,
        {
            out.push(self.list[i].id);
            i += 1;
        }
        assert(out@ =~= peer_ids(self@));
        out
    }
}

/// What a process does when a peer's connection becomes known to it.
#[derive(Clone, Copy, Debug, PartialEq, Eq, Structural)]
pub struct ConnectActions {
    /// The state that a host announces to every peer.
    pub announce: Option<SetSimulationState>,
    /// Whether the host makes the new peer known to the other peers.
    pub replicate: bool,
    /// Whether the host adds its own peer, with id `1`, marked as local.
    pub spawn_host: bool,
    /// The question that a peer sends to learn which of the peers it is.
    pub request_local_id: Option<LocalClientIdRequestEvent>,
}

/// The rule behind `on_client_connect`.
pub open spec fn connect_actions(
    peers: Seq<Peer>,
    connected: ClientId,
    server_running: bool,
    mode: ServerMode,
    num_players: u8,
) -> ConnectActions {
    ConnectActions {
        announce: if server_running && peers.len() == num_players {
            Some(SetSimulationState(SimulationState::Setup))
        } else {
            None
        },
        replicate: connected != HOST_CLIENT_ID && server_running,
        spawn_host: connected != HOST_CLIENT_ID && server_running && mode == ServerMode::Host
            && local_count(peers) != 1,
        request_local_id: if connected != HOST_CLIENT_ID && !server_running && local_count(peers)
            == 0 {
            Some(LocalClientIdRequestEvent)
        } else {
            None
        },
    }
}

/// A peer's connection has become known; `peers` already holds it.
///
/// A host that now sees as many peers as the session is made for announces
/// the setup. For any peer but its own, a host makes it known to the others
/// and, where it plays a peer itself and has none yet, adds its own. A
/// process that is no host and does not know yet which peer it is asks the
/// host.
pub fn on_client_connect(
    peers: &Peers,
    connected: ClientId,
    server_running: bool,
    server_settings: &ConnectionSettings,
    simulation_settings: &SimulationSettings,
) -> (r: ConnectActions)
    ensures
        r == connect_actions(
            peers@,
            connected,
            server_running,
            server_settings.server_mode,
            simulation_settings.num_players,
        ),
{
    let announce = if server_running && peers.len() == simulation_settings.num_players as usize {
        Some(SetSimulationState(SimulationState::Setup))
    } else {
        None
    };
    let mut actions = ConnectActions {
        announce,
        replicate: false,
        spawn_host: false,
        request_local_id: None,
    };
    if connected == HOST_CLIENT_ID {
        return actions;
    }
    let locals = peers.local_count();
    if server_running {
        actions.replicate = true;
        actions.spawn_host = server_settings.server_mode == ServerMode::Host && locals != 1;
    } else if locals == 0 {
        actions.request_local_id = Some(LocalClientIdRequestEvent);
    }
    actions
}

/// Counts the time since this peer lost its connection, in nanoseconds.
#[derive(Clone, Copy, Debug, PartialEq, Eq, Structural)]
pub struct ClientReconnectTimer {
    pub elapsed: u64,
}

/// What a look at a lost connection led to.
#[derive(Clone, Copy, Debug, PartialEq, Eq, Structural)]
pub enum DisconnectOutcome {
    /// No session is under way: nothing was done.
    Ignored,
    /// The loss is new: the peer starts to reconnect and says so.
    Reconnecting(ClientReconnect),
    /// The peer is still trying.
    Waiting,
    /// The time to reconnect has run out: the peer gives up and says so.
    Expired(ClientDisconnect),
}

/// The time counted after `delta` more nanoseconds; the count stops at the
/// end of its range.
pub open spec fn elapsed_after(elapsed: u64, delta: u64) -> u64 {
    if elapsed + delta > u64::MAX {
        u64::MAX
    } else {
        (elapsed + delta) as u64
    }
}

/// A peer without connection looks at its state, `delta` nanoseconds after
/// its last look.
///
/// Before a session is set up and after it has ended nothing happens. A peer
/// that is already reconnecting counts the time; once the time allowed has
/// passed it gives up, reports itself gone and returns to no session. In any
/// other state the loss is new: the peer starts to reconnect, with a fresh
/// count.
pub fn handle_local_client_disconnect(
    state: &mut SimulationState,
    timer: &mut Option<ClientReconnectTimer>,
    delta: u64,
    settings: &ConnectionSettings,
    local_client: ClientId,
) -> (r: DisconnectOutcome)
    requires
        *old(state) == SimulationState::Reconnecting ==> *old(timer) is Some,
    ensures
        match *old(state) {
            SimulationState::Ending | SimulationState::Idle | SimulationState::Connecting => {
                &&& r == DisconnectOutcome::Ignored
                &&& *final(state) == *old(state)
                &&& *final(timer) == *old(timer)
            },
            SimulationState::Reconnecting => {
                let elapsed = elapsed_after(old(timer)->Some_0.elapsed, delta);
                if elapsed >= settings.reconnect_timer {
                    &&& r == DisconnectOutcome::Expired(ClientDisconnect(local_client))
                    &&& *final(state) == SimulationState::Idle
                    &&& *final(timer) is None
                } else {
                    &&& r == DisconnectOutcome::Waiting
                    &&& *final(state) == SimulationState::Reconnecting
                    &&& *final(timer) == Some(ClientReconnectTimer { elapsed })
                }
            },
            _ => {
                &&& r == DisconnectOutcome::Reconnecting(ClientReconnect)
                &&& *final(state) == SimulationState::Reconnecting
                &&& *final(timer) == Some(ClientReconnectTimer { elapsed: 0 })
            },
        },
{
    match *state {
        SimulationState::Ending | SimulationState::Idle | SimulationState::Connecting => {
            DisconnectOutcome::Ignored
        },
        SimulationState::Reconnecting => {
            let before: u64 = match *timer {
                Some(t) => t.elapsed,
                None => 0,
            };
            let elapsed: u64 = if before > u64::MAX - delta {
                u64::MAX
            } else {
                before + delta
            };
            if elapsed >= settings.reconnect_timer {
                *state = SimulationState::Idle;
                *timer = None;
                DisconnectOutcome::Expired(ClientDisconnect(local_client))
            } else {
                *timer = Some(ClientReconnectTimer { elapsed });
                DisconnectOutcome::Waiting
            }
        },
        _ => {
            *state = SimulationState::Reconnecting;
            *timer = Some(ClientReconnectTimer { elapsed: 0 });
            DisconnectOutcome::Reconnecting(ClientReconnect)
        },
    }
}

/// The host answers a peer that asks which of the peers it is: with the id
/// under which the host knows it. A question from an unknown peer is a fault.
pub fn on_client_requested_id(peers: &Peers, requester: ClientId) -> (r: Result<
    LocalClientIdResponseEvent,
    SessionFault,
>)
    ensures
        has_peer(peers@, requester) ==> r == Ok::<LocalClientIdResponseEvent, SessionFault>(
            LocalClientIdResponseEvent(requester),
        ),
        !has_peer(peers@, requester) ==> r == Err::<LocalClientIdResponseEvent, SessionFault>(
            SessionFault::UnknownPeer,
        ),
{
    if peers.contains(requester) {
        Ok(LocalClientIdResponseEvent(requester))
    } else {
        Err(SessionFault::UnknownPeer)
    }
}

/// A peer learns from the host which of the peers it is and marks that one,
/// and no other, as local. Taking the same answer in again changes nothing
/// more. An answer that names no known peer is a fault and marks nobody.
pub fn on_received_local_client_id(peers: &mut Peers, response: &LocalClientIdResponseEvent) -> (r:
    Result<(), SessionFault>)
    requires
        old(peers).wf(),
    ensures
        final(peers).wf(),
        has_peer(old(peers)@, response.0) ==> r is Ok && final(peers)@ == old(peers)@.update(
            peer_index(old(peers)@, response.0),
            Peer {
                id: response.0,
                local: Some(LocalClient),
                ready: old(peers)@[peer_index(old(peers)@, response.0)].ready,
            },
        ),
        !has_peer(old(peers)@, response.0) ==> r == Err::<(), SessionFault>(
            SessionFault::UnknownPeer,
        ) && final(peers)@ == old(peers)@,
{
    if peers.mark_local(response.0) {
        Ok(())
    } else {
        Err(SessionFault::UnknownPeer)
    }
}

/// The peer that a report of readiness marks: the sender that the transport
/// names; for a report that the host sent to itself, the host's own peer,
/// where exactly one peer is marked as local.
pub open spec fn ready_target(peers: Seq<Peer>, sender: Option<ClientId>) -> Option<ClientId> {
    match sender {
        Some(id) => Some(id),
        None => if local_count(peers) == 1 {
            Some(peers[first_local(peers)].id)
        } else {
            None
        },
    }
}

/// The place of the first of `peers` that is marked as local, or the length
/// of `peers` where none is.
pub open spec fn first_local(peers: Seq<Peer>) -> int
    decreases peers.len(),
{
    if peers.len() == 0 || peers[0].local is Some {
        0
    } else {
        1 + first_local(peers.skip(1))
    }
}

/// The place where a scan for a local peer stops is `first_local`.
pub proof fn lemma_first_local_is(peers: Seq<Peer>, k: int)
    requires
        0 <= k <= peers.len(),
        forall|j: int| 0 <= j < k ==> peers[j].local is None,
        k < peers.len() ==> peers[k].local is Some,
    ensures
        first_local(peers) == k,
    decreases k,
{
    if k > 0 {
        let tail = peers.skip(1);
        assert forall|j: int| 0 <= j < k - 1 implies tail[j].local is None by {
            assert(tail[j] == peers[j + 1]);
        }
        lemma_first_local_is(tail, k - 1);
    }
}

/// Where nobody is marked as local, the count of local peers is zero.
pub proof fn lemma_no_local(peers: Seq<Peer>)
    requires
        forall|i: int| 0 <= i < peers.len() ==> peers[i].local is None,
    ensures
        local_count(peers) == 0,
    decreases peers.len(),
{
    if peers.len() > 0 {
        assert forall|i: int| 0 <= i < peers.drop_last().len() implies peers.drop_last()[i].local
            is None by {
            assert(peers.drop_last()[i] == peers[i]);
        }
        lemma_no_local(peers.drop_last());
    }
}

/// A peer has reported that it is ready.
///
/// The report of a connected peer marks that peer; from a peer that is not
/// known it is a fault. A report that the host sent to itself marks the
/// host's own peer, and nobody where the host plays none. Answers the peer
/// that was marked.
pub fn on_client_ready(peers: &mut Peers, sender: Option<ClientId>) -> (r: Result<
    Option<ClientId>,
    SessionFault,
>)
    requires
        old(peers).wf(),
    ensures
        final(peers).wf(),
        match ready_target(old(peers)@, sender) {
            None => r == Ok::<Option<ClientId>, SessionFault>(None) && final(peers)@ == old(peers)@,
            Some(id) => if has_peer(old(peers)@, id) {
                &&& r == Ok::<Option<ClientId>, SessionFault>(Some(id))
                &&& final(peers)@ == old(peers)@.update(
                    peer_index(old(peers)@, id),
                    Peer {
                        id,
                        local: old(peers)@[peer_index(old(peers)@, id)].local,
                        ready: Some(ClientReady),
                    },
                )
            } else {
                &&& r == Err::<Option<ClientId>, SessionFault>(SessionFault::UnknownPeer)
                &&& final(peers)@ == old(peers)@
            },
        },
{
    let target: Option<ClientId> = match sender {
        Some(id) => Some(id),
        None => {
            if peers.local_count() == 1 {
                let found = peers.local_id();
                proof {
                    match found {
                        Some(id) => {
                            let i = choose|i: int|
                                0 <= i < peers@.len() && peers@[i].local is Some && peers@[i].id
                                    == id && forall|j: int| 0 <= j < i ==> peers@[j].local is None;
                            lemma_first_local_is(peers@, i);
                        },
                        None => {
                            lemma_no_local(peers@);
                        },
                    }
                }
                found
            } else {
                None
            }
        },
    };
    match target {
        None => Ok(None),
        Some(id) => {
            if peers.mark_ready(id) {
                Ok(Some(id))
            } else {
                Err(SessionFault::UnknownPeer)
            }
        },
    }
}

/// The readiness barrier: while the session is set up, the host announces
/// the start once every peer has reported that it is ready, and not before.
/// The session must still have all the peers it is made for.
pub fn check_all_clients_ready(peers: &Peers, settings: &SimulationSettings) -> (r: Option<
    SetSimulationState,
>)
    requires
        peers@.len() == settings.num_players,
    ensures
        all_ready(peers@) ==> r == Some(SetSimulationState(SimulationState::Starting)),
        !all_ready(peers@) ==> r is None,
{
    if peers.all_ready() {
        Some(SetSimulationState(SimulationState::Starting))
    } else {
        None
    }
}

} // verus!
