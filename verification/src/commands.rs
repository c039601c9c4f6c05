//! Commands and the per-tick bundles and logs that carry them.

use crate::connections::{ClientId, HOST_CLIENT_ID};
use crate::simulation::{
    delay_ticks, rtt_delay_ticks, SessionFault, SimTick, SimulationSettings, SimulationTick,
};
use std::collections::BTreeMap;
use vstd::prelude::*;
use vstd::std_specs::btree::{increasing_seq, spec_btree_map_iter};
use vstd::std_specs::cmp::OrdSpec;
use vstd::std_specs::iter::IteratorSpec;

pub mod serialization;
pub mod types;

verus! {

/// One input of a peer. The coordinator never looks inside: `type_id` tells the
/// game which decoder reads `payload`.
#[derive(Debug, PartialEq, Eq)]
pub struct Command {
    pub type_id: u16,
    pub payload: Vec<u8>,
}

/// A command as a mathematical value.
pub struct CommandView {
    pub type_id: u16,
    pub payload: Seq<u8>,
}

impl View for Command {
    type V = CommandView;

    open spec fn view(&self) -> CommandView {
        CommandView { type_id: self.type_id, payload: self.payload@ }
    }
}

impl DeepView for Command {
    type V = CommandView;

    open spec fn deep_view(&self) -> CommandView {
        self@
    }
}

impl Clone for Command {
    fn clone(&self) -> (r: Self)
        ensures
            r@ == self@,
    {
        Command { type_id: self.type_id, payload: copy_bytes(&self.payload) }
    }
}

impl Command {
    /// A command of kind `type_id` with the given payload.
    pub fn new(type_id: u16, payload: Vec<u8>) -> (r: Self)
        ensures
            r.type_id == type_id,
            r.payload == payload,
    {
        Command { type_id, payload }
    }
}

/// A copy of `bytes`.
pub fn copy_bytes(bytes: &Vec<u8>) -> (r: Vec<u8>)
    ensures
        r@ == bytes@,
{
    let mut out: Vec<u8> = Vec::new();
    let mut i: usize = 0;
    while i < bytes.len()
        invariant
            i <= bytes.len(),
            out@ == bytes@.take(i as int),
        decreases bytes.len() - i,
    {
        out.push(bytes[i]);
        i += 1;
        assert(out@ =~= bytes@.take(i as int));
    }
    assert(bytes@.take(bytes.len() as int) =~= bytes@);
    out
}

/// A copy of `commands`, in the same order.
pub fn copy_commands(commands: &Vec<Command>) -> (r: Vec<Command>)
    ensures
        r.deep_view() == commands.deep_view(),
{
    let mut out: Vec<Command> = Vec::new();
    let mut i: usize = 0;
    while i < commands.len()
        invariant
            i <= commands.len(),
            out.len() == i,
            forall|j: int| 0 <= j < i ==> out@[j]@ == commands@[j]@,
        decreases commands.len() - i,
    {
        out.push(commands[i].clone());
        i += 1;
    }
    assert(out.deep_view() =~= commands.deep_view());
    out
}

/// A bundle as a mathematical value: its peers in the order in which they are
/// visited, each with its commands in the order of submission.
pub type BundleView = Seq<(ClientId, Seq<CommandView>)>;

/// Whether the peers of `b` come in strictly ascending order.
pub open spec fn ascending_peers(b: BundleView) -> bool {
    forall|i: int, j: int| 0 <= i < j < b.len() ==> b[i].0 < b[j].0
}

/// Whether `b` has an entry for `peer`.
pub open spec fn bundle_contains(b: BundleView, peer: ClientId) -> bool {
    exists|i: int| 0 <= i < b.len() && b[i].0 == peer
}

/// The commands that `b` holds for `peer`, if it has an entry for it.
pub open spec fn bundle_get(b: BundleView, peer: ClientId) -> Option<Seq<CommandView>> {
    if bundle_contains(b, peer) {
        Some(b[choose|i: int| 0 <= i < b.len() && b[i].0 == peer].1)
    } else {
        None
    }
}

/// How many entries stand at the front of `b` with a peer below `peer`.
pub open spec fn peers_below(b: BundleView, peer: ClientId) -> nat
    decreases b.len(),
{
    if b.len() == 0 || b[0].0 >= peer {
        0
    } else {
        1 + peers_below(b.skip(1), peer)
    }
}

/// `b` with the entry of `peer` set to `commands`: replaced where `b` has one,
/// else put where the order asks for it.
pub open spec fn bundle_insert(b: BundleView, peer: ClientId, commands: Seq<CommandView>)
    -> BundleView {
    let k = peers_below(b, peer) as int;
    if k < b.len() && b[k].0 == peer {
        b.update(k, (peer, commands))
    } else {
        b.insert(k, (peer, commands))
    }
}

/// `peers_below` is the place where a scan from the front stops.
pub proof fn lemma_peers_below(b: BundleView, peer: ClientId, k: int)
    requires
        0 <= k <= b.len(),
        forall|j: int| 0 <= j < k ==> b[j].0 < peer,
        k < b.len() ==> b[k].0 >= peer,
    ensures
        peers_below(b, peer) == k,
    decreases k,
{
    if k > 0 {
        let tail = b.skip(1);
        assert forall|j: int| 0 <= j < k - 1 implies tail[j].0 < peer by {
            assert(tail[j] == b[j + 1]);
        }
        lemma_peers_below(tail, peer, k - 1);
    }
}

/// Where `peers_below` points, everything before is below `peer`, and in an
/// ascending bundle nothing from there on is.
pub proof fn lemma_peers_below_splits(b: BundleView, peer: ClientId)
    ensures
        peers_below(b, peer) <= b.len(),
        forall|j: int| 0 <= j < peers_below(b, peer) ==> b[j].0 < peer,
        peers_below(b, peer) < b.len() ==> b[peers_below(b, peer) as int].0 >= peer,
    decreases b.len(),
{
    if !(b.len() == 0 || b[0].0 >= peer) {
        let tail = b.skip(1);
        lemma_peers_below_splits(tail, peer);
        let k = peers_below(tail, peer) as int;
        assert forall|j: int| 0 <= j < k + 1 implies b[j].0 < peer by {
            if j > 0 {
                assert(tail[j - 1] == b[j]);
            }
        }
        if k + 1 < b.len() {
            assert(tail[k] == b[k + 1]);
        }
    }
}

/// In an ascending bundle a peer has at most one entry, so the entry at any
/// place is what `bundle_get` finds for its peer.
pub proof fn lemma_bundle_get_at(b: BundleView, i: int)
    requires
        ascending_peers(b),
        0 <= i < b.len(),
    ensures
        bundle_get(b, b[i].0) == Some(b[i].1),
{
    let j = choose|j: int| 0 <= j < b.len() && b[j].0 == b[i].0;
    assert(j == i) by {
        if j < i {
            assert(b[j].0 < b[i].0);
        } else if i < j {
            assert(b[i].0 < b[j].0);
        }
    }
}

/// Setting an entry keeps the order.
pub proof fn lemma_bundle_insert_ascending(
    b: BundleView,
    peer: ClientId,
    commands: Seq<CommandView>,
)
    requires
        ascending_peers(b),
    ensures
        ascending_peers(bundle_insert(b, peer, commands)),
{
    lemma_peers_below_splits(b, peer);
    let k = peers_below(b, peer) as int;
    let r = bundle_insert(b, peer, commands);
    if k < b.len() && b[k].0 == peer {
        assert forall|i: int, j: int| 0 <= i < j < r.len() implies r[i].0 < r[j].0 by {
            assert(r[i].0 == b[i].0 && r[j].0 == b[j].0);
        }
    } else {
        assert forall|i: int, j: int| 0 <= i < j < r.len() implies r[i].0 < r[j].0 by {
            let i0 = if i < k {
                i
            } else {
                i - 1
            };
            let j0 = if j < k {
                j
            } else {
                j - 1
            };
            if i != k {
                assert(r[i] == b[i0]);
            }
            if j != k {
                assert(r[j] == b[j0]);
            }
            if i == k {
                // what follows the new entry stood at or after place `k`
                if k < j0 {
                    assert(b[k].0 < b[j0].0);
                }
            } else if j != k {
                assert(i0 < j0);
            }
        }
    }
}

/// After an entry was set, it is found where `peers_below` points, and every
/// other entry is found one to one among those that were there before.
proof fn lemma_bundle_insert_places(b: BundleView, peer: ClientId, commands: Seq<CommandView>)
    ensures
        ({
            let k = peers_below(b, peer) as int;
            let r = bundle_insert(b, peer, commands);
            let replaced = k < b.len() && b[k].0 == peer;
            &&& 0 <= k < r.len()
            &&& r[k] == (peer, commands)
            &&& replaced ==> r.len() == b.len() && forall|i: int|
                0 <= i < b.len() && i != k ==> r[i] == b[i]
            &&& !replaced ==> r.len() == b.len() + 1 && (forall|i: int|
                0 <= i < k ==> r[i] == b[i]) && (forall|i: int|
                k <= i < b.len() ==> r[i + 1] == b[i])
        }),
{
    lemma_peers_below_splits(b, peer);
}

/// Setting an entry keeps the order, makes `peer` map to `commands`, and
/// changes no other peer's entry.
pub proof fn lemma_bundle_insert(
    b: BundleView,
    peer: ClientId,
    commands: Seq<CommandView>,
    other: ClientId,
)
    requires
        ascending_peers(b),
    ensures
        ascending_peers(bundle_insert(b, peer, commands)),
        bundle_get(bundle_insert(b, peer, commands), peer) == Some(commands),
        other != peer ==> bundle_get(bundle_insert(b, peer, commands), other) == bundle_get(
            b,
            other,
        ),
        bundle_contains(bundle_insert(b, peer, commands), other) <==> (other == peer
            || bundle_contains(b, other)),
{
    lemma_bundle_insert_ascending(b, peer, commands);
    lemma_bundle_insert_places(b, peer, commands);
    lemma_peers_below_splits(b, peer);
    let k = peers_below(b, peer) as int;
    let r = bundle_insert(b, peer, commands);
    let replaced = k < b.len() && b[k].0 == peer;
    lemma_bundle_get_at(r, k);
    if other != peer {
        if bundle_contains(b, other) {
            let i = choose|i: int| 0 <= i < b.len() && b[i].0 == other;
            lemma_bundle_get_at(b, i);
            let i2 = if replaced || i < k {
                i
            } else {
                i + 1
            };
            assert(r[i2] == b[i]);
            lemma_bundle_get_at(r, i2);
        }
        if bundle_contains(r, other) {
            let i = choose|i: int| 0 <= i < r.len() && r[i].0 == other;
            let i0 = if replaced || i < k {
                i
            } else {
                i - 1
            };
            assert(b[i0] == r[i]);
        }
    }
}

/// What is left of an ascending bundle without its first entry holds every
/// peer but the first, with the same commands.
pub proof fn lemma_bundle_get_skip(b: BundleView, peer: ClientId)
    requires
        ascending_peers(b),
        b.len() > 0,
    ensures
        ascending_peers(b.skip(1)),
        bundle_get(b.skip(1), peer) == if peer == b[0].0 {
            None
        } else {
            bundle_get(b, peer)
        },
{
    let tail = b.skip(1);
    assert forall|i: int, j: int| 0 <= i < j < tail.len() implies tail[i].0 < tail[j].0 by {
        assert(tail[i] == b[i + 1] && tail[j] == b[j + 1]);
    }
    if bundle_contains(tail, peer) {
        let i = choose|i: int| 0 <= i < tail.len() && tail[i].0 == peer;
        assert(tail[i] == b[i + 1]);
        assert(b[0].0 < b[i + 1].0);
        lemma_bundle_get_at(tail, i);
        lemma_bundle_get_at(b, i + 1);
    } else if bundle_contains(b, peer) {
        let i = choose|i: int| 0 <= i < b.len() && b[i].0 == peer;
        if i > 0 {
            assert(tail[i - 1] == b[i]);
        }
    }
}

/// A bundle is its mapping from peers to commands: two ascending bundles
/// that hold the same commands for every peer are the same bundle, entry by
/// entry.
pub proof fn lemma_bundle_is_its_mapping(a: BundleView, b: BundleView)
    requires
        ascending_peers(a),
        ascending_peers(b),
        forall|peer: ClientId| bundle_get(a, peer) == bundle_get(b, peer),
    ensures
        a == b,
    decreases a.len(),
{
    if a.len() == 0 {
        if b.len() > 0 {
            lemma_bundle_get_at(b, 0);
            assert(bundle_get(a, b[0].0) is None);
        }
        assert(a =~= b);
    } else {
        lemma_bundle_get_at(a, 0);
        assert(bundle_contains(b, a[0].0));
        let j = choose|j: int| 0 <= j < b.len() && b[j].0 == a[0].0;
        lemma_bundle_get_at(b, 0);
        assert(bundle_contains(a, b[0].0));
        let i = choose|i: int| 0 <= i < a.len() && a[i].0 == b[0].0;
        if i > 0 {
            assert(a[0].0 < a[i].0);
        }
        if j > 0 {
            assert(b[0].0 < b[j].0);
        }
        assert(a[0] == b[0]);
        assert forall|peer: ClientId| bundle_get(a.skip(1), peer) == bundle_get(
            b.skip(1),
            peer,
        ) by {
            lemma_bundle_get_skip(a, peer);
            lemma_bundle_get_skip(b, peer);
        }
        lemma_bundle_get_skip(a, a[0].0);
        lemma_bundle_get_skip(b, b[0].0);
        lemma_bundle_is_its_mapping(a.skip(1), b.skip(1));
        assert(a =~= seq![a[0]] + a.skip(1));
        assert(b =~= seq![b[0]] + b.skip(1));
    }
}

/// Setting the entry of a peer above every peer of `b` appends it.
pub proof fn lemma_bundle_insert_last(b: BundleView, peer: ClientId, commands: Seq<CommandView>)
    requires
        forall|j: int| 0 <= j < b.len() ==> b[j].0 < peer,
    ensures
        bundle_insert(b, peer, commands) == b.push((peer, commands)),
{
    lemma_peers_below(b, peer, b.len() as int);
    assert(b.insert(b.len() as int, (peer, commands)) =~= b.push((peer, commands)));
}

/// What the map `m` holds for `peer`, as a mathematical value.
spec fn mapping_of(m: Map<ClientId, Vec<Command>>, peer: ClientId) -> Option<Seq<CommandView>> {
    if m.contains_key(peer) {
        Some(m[peer].deep_view())
    } else {
        None
    }
}

/// Whether `s` lists what `m` holds: each peer once, in ascending order, with
/// its commands.
spec fn lists(s: BundleView, m: Map<ClientId, Vec<Command>>) -> bool {
    &&& ascending_peers(s)
    &&& s.len() == m.dom().len()
    &&& forall|peer: ClientId| #[trigger] bundle_get(s, peer) == mapping_of(m, peer)
}

/// The ascending list of what `m` holds.
spec fn listing(m: Map<ClientId, Vec<Command>>) -> BundleView {
    choose|s: BundleView| lists(s, m)
}

/// In an ascending bundle the entry of `peer` is replaced exactly where the
/// bundle has one.
proof fn lemma_replaced_where_held(b: BundleView, peer: ClientId)
    requires
        ascending_peers(b),
    ensures
        (peers_below(b, peer) < b.len() && b[peers_below(b, peer) as int].0 == peer)
            <==> bundle_contains(b, peer),
{
    lemma_peers_below_splits(b, peer);
    let k = peers_below(b, peer) as int;
    if bundle_contains(b, peer) {
        let i = choose|i: int| 0 <= i < b.len() && b[i].0 == peer;
        if i > k {
            assert(b[k].0 < b[i].0);
        }
    }
}

/// Every finite map has a list.
proof fn lemma_lists_exists(m: Map<ClientId, Vec<Command>>)
    requires
        m.dom().finite(),
    ensures
        exists|s: BundleView| lists(s, m),
    decreases m.dom().len(),
{
    if m.dom().len() == 0 {
        assert(m.dom() =~= Set::<ClientId>::empty());
        assert(lists(BundleView::empty(), m));
    } else {
        let k = m.dom().choose();
        assert(m.dom().contains(k));
        let rest = m.remove(k);
        assert(rest.dom() =~= m.dom().remove(k));
        lemma_lists_exists(rest);
        let s0 = choose|s: BundleView| lists(s, rest);
        let added = m[k].deep_view();
        let s = bundle_insert(s0, k, added);
        lemma_bundle_insert_ascending(s0, k, added);
        lemma_bundle_insert_places(s0, k, added);
        lemma_replaced_where_held(s0, k);
        assert(bundle_get(s0, k) == mapping_of(rest, k));
        assert forall|peer: ClientId| #[trigger] bundle_get(s, peer) == mapping_of(m, peer) by {
            lemma_bundle_insert(s0, k, added, peer);
            assert(bundle_get(s0, peer) == mapping_of(rest, peer));
        }
        assert(lists(s, m));
    }
}

/// The list of a finite map lists it, and nothing else does.
proof fn lemma_listing(m: Map<ClientId, Vec<Command>>, s: BundleView)
    requires
        m.dom().finite(),
    ensures
        lists(listing(m), m),
        lists(s, m) ==> s == listing(m),
{
    lemma_lists_exists(m);
    if lists(s, m) {
        let l = listing(m);
        assert forall|peer: ClientId| bundle_get(s, peer) == bundle_get(l, peer) by {
            assert(bundle_get(s, peer) == mapping_of(m, peer));
            assert(bundle_get(l, peer) == mapping_of(m, peer));
        }
        lemma_bundle_is_its_mapping(s, l);
    }
}

/// A sequence that the tree map's iterator calls increasing ascends.
proof fn lemma_increasing_ascends(keys: Seq<ClientId>)
    requires
        increasing_seq(keys),
    ensures
        forall|i: int, j: int| 0 <= i < j < keys.len() ==> keys[i] < keys[j],
{
    assert forall|i: int, j: int| 0 <= i < j < keys.len() implies keys[i] < keys[j] by {
        assert(keys[i].cmp_spec(&keys[j]) is Less);
    }
}

/// The commands of every peer for one tick. Peers are held, visited and
/// written to the wire in ascending order of their ids, so that every machine
/// sees them in the same order.
#[derive(Debug, PartialEq, Eq)]
pub struct LockstepClientCommands(BTreeMap<ClientId, Vec<Command>>);

impl View for LockstepClientCommands {
    type V = BundleView;

    closed spec fn view(&self) -> BundleView {
        listing(self.0@)
    }
}

impl Default for LockstepClientCommands {
    fn default() -> (r: Self)
        ensures
            r@ == BundleView::empty(),
            r.wf(),
    {
        LockstepClientCommands::new()
    }
}

impl Clone for LockstepClientCommands {
    fn clone(&self) -> (r: Self)
        ensures
            r@ == self@,
    {
        let entries = self.entries();
        let mut copy = LockstepClientCommands::new();
        let mut i: usize = 0;
        proof {
            self.lemma_wf();
            assert(self@.take(0) =~= BundleView::empty());
        }
        while i < entries.len()
            invariant
                i <= entries.len(),
                entries.len() == self@.len(),
                ascending_peers(self@),
                forall|k: int|
                    0 <= k < entries.len() ==> (#[trigger] entries[k]).0 == self@[k].0
                        && entries[k].1.deep_view() == self@[k].1,
                copy.wf(),
                copy@ == self@.take(i as int),
            decreases entries.len() - i,
        {
            let entry = entries[i];
            let commands = copy_commands(entry.1);
            proof {
                let front = self@.take(i as int);
                assert forall|k: int| 0 <= k < front.len() implies front[k].0 < entry.0 by {
                    assert(front[k] == self@[k]);
                }
                lemma_bundle_insert_last(front, entry.0, commands.deep_view());
                assert(front.push(self@[i as int]) =~= self@.take(i + 1));
            }
            copy.insert(entry.0, commands);
            i += 1;
        }
        assert(self@.take(self@.len() as int) =~= self@);
        copy
    }
}

impl LockstepClientCommands {
    /// The invariant of a bundle: its peers ascend strictly, so no peer occurs
    /// twice.
    pub open spec fn wf(&self) -> bool {
        ascending_peers(self@)
    }

    /// Every bundle is well-formed, and lists what its map holds.
    pub proof fn lemma_wf(&self)
        ensures
            self.wf(),
    {
        lemma_listing(self.0@, self@);
    }

    /// Every payload in a bundle has a length that fits sixty-four bits.
    pub proof fn lemma_payloads_bounded(&self)
        ensures
            forall|i: int, j: int|
                0 <= i < self@.len() && 0 <= j < self@[i].1.len() ==> (
                #[trigger] self@[i].1[j]).payload.len() <= u64::MAX,
    {
        lemma_listing(self.0@, self@);
        assert forall|i: int, j: int|
            0 <= i < self@.len() && 0 <= j < self@[i].1.len() implies (
        #[trigger] self@[i].1[j]).payload.len() <= u64::MAX by {
            let peer = self@[i].0;
            lemma_bundle_get_at(self@, i);
            assert(bundle_get(self@, peer) == mapping_of(self.0@, peer));
            let payload = self.0@[peer]@[j].payload;
            assert(payload.len() == payload@.len());
        }
    }

    /// A bundle without entries.
    pub fn new() -> (r: Self)
        ensures
            r@ == BundleView::empty(),
            r.wf(),
    {
        let r = LockstepClientCommands(BTreeMap::new());
        proof {
            assert(r.0@.dom() =~= Set::<ClientId>::empty());
            assert(lists(BundleView::empty(), r.0@));
            lemma_listing(r.0@, BundleView::empty());
        }
        r
    }

    /// The number of peers with an entry.
    pub fn len(&self) -> (r: usize)
        ensures
            r == self@.len(),
    {
        proof {
            lemma_listing(self.0@, self@);
        }
        self.0.len()
    }

    /// Whether no peer has an entry.
    pub fn is_empty(&self) -> (r: bool)
        ensures
            r == (self@.len() == 0),
    {
        self.len() == 0
    }

    /// The entries in the order in which they are visited: ascending by
    /// peer.
    pub fn entries<'a>(&'a self) -> (r: Vec<(ClientId, &'a Vec<Command>)>)
        ensures
            self.wf(),
            r@.len() == self@.len(),
            forall|i: int|
                0 <= i < r@.len() ==> (#[trigger] r@[i]).0 == self@[i].0 && r@[i].1.deep_view()
                    == self@[i].1,
    {
        let mut out: Vec<(ClientId, &'a Vec<Command>)> = Vec::new();
        for kv in it: self.0.iter()
            invariant
                it.seq() == spec_btree_map_iter(&self.0).remaining(),
                increasing_seq(it.seq().map_values(|kv: (&ClientId, &Vec<Command>)| *kv.0)),
                out@.len() == it.index(),
                forall|i: int|
                    0 <= i < out@.len() ==> out@[i].0 == *it.seq()[i].0 && out@[i].1
                        == it.seq()[i].1,
        {
            out.push((*kv.0, kv.1));
        }
        proof {
            let m = self.0@;
            let visited = spec_btree_map_iter(&self.0).remaining();
            let keys = visited.map_values(|kv: (&ClientId, &Vec<Command>)| *kv.0);
            let listed = Seq::new(out@.len(), |i: int| (out@[i].0, out@[i].1.deep_view()));
            lemma_increasing_ascends(keys);
            assert forall|i: int, j: int| 0 <= i < j < listed.len() implies listed[i].0
                < listed[j].0 by {
                assert(keys[i] == out@[i].0);
                assert(keys[j] == out@[j].0);
            }
            assert forall|peer: ClientId| #[trigger]
                bundle_get(listed, peer) == mapping_of(m, peer) by {
                if m.contains_key(peer) {
                    assert(visited.contains((&peer, &m[peer])));
                    let k = choose|k: int| 0 <= k < visited.len() && visited[k] == (&peer, &m[peer]);
                    assert(listed[k] == (peer, m[peer].deep_view()));
                    lemma_bundle_get_at(listed, k);
                } else if bundle_contains(listed, peer) {
                    let k = choose|k: int| 0 <= k < listed.len() && listed[k].0 == peer;
                    assert(m.contains_key(*visited[k].0));
                }
            }
            assert(lists(listed, m));
            lemma_listing(m, listed);
        }
        out
    }

    /// The peer of the entry that is visited as number `index`.
    pub fn peer_at(&self, index: usize) -> (r: ClientId)
        requires
            index < self@.len(),
        ensures
            r == self@[index as int].0,
    {
        let entries = self.entries();
        entries[index].0
    }

    /// The commands of the entry that is visited as number `index`.
    pub fn commands_at(&self, index: usize) -> (r: &Vec<Command>)
        requires
            index < self@.len(),
        ensures
            r.deep_view() == self@[index as int].1,
    {
        let entries = self.entries();
        entries[index].1
    }

    /// The peers with an entry, in the order in which they are visited:
    /// ascending.
    pub fn peers(&self) -> (r: Vec<ClientId>)
        requires
            self.wf(),
        ensures
            r@ == self@.map_values(|e: (ClientId, Seq<CommandView>)| e.0),
            forall|i: int, j: int| 0 <= i < j < r.len() ==> r[i] < r[j],
    {
        let entries = self.entries();
        let mut out: Vec<ClientId> = Vec::new();
        let mut i: usize = 0;
        while i < entries.len()
            invariant
                i <= entries.len(),
                entries.len() == self@.len(),
                forall|k: int| 0 <= k < entries.len() ==> (#[trigger] entries[k]).0 == self@[k].0,
                out.len() == i,
                forall|j: int| 0 <= j < i ==> out@[j] == self@[j].0,
            decreases entries.len() - i,
        {
            out.push(entries[i].0);
            i += 1;
        }
        assert(out@ =~= self@.map_values(|e: (ClientId, Seq<CommandView>)| e.0));
        out
    }

    /// Whether `peer` has an entry.
    pub fn contains_key(&self, peer: ClientId) -> (r: bool)
        requires
            self.wf(),
        ensures
            r == bundle_contains(self@, peer),
    {
        proof {
            lemma_listing(self.0@, self@);
            assert(bundle_get(self@, peer) == mapping_of(self.0@, peer));
        }
        self.0.contains_key(&peer)
    }

    /// The commands of `peer`, if it has an entry.
    pub fn get(&self, peer: ClientId) -> (r: Option<&Vec<Command>>)
        requires
            self.wf(),
        ensures
            match r {
                Some(commands) => bundle_get(self@, peer) == Some(commands.deep_view()),
                None => bundle_get(self@, peer) is None,
            },
    {
        proof {
            lemma_listing(self.0@, self@);
            assert(bundle_get(self@, peer) == mapping_of(self.0@, peer));
        }
        self.0.get(&peer)
    }

    /// Those of `clients` that have no entry, in the order of `clients`.
    pub fn absent(&self, clients: &Vec<ClientId>) -> (r: Vec<ClientId>)
        requires
            self.wf(),
        ensures
            r@ == absent_peers(self@, clients@),
    {
        let mut out: Vec<ClientId> = Vec::new();
        let mut i: usize = 0;
        while i < clients.len()
            invariant
                self.wf(),
                i <= clients.len(),
                out@ == absent_peers(self@, clients@.take(i as int)),
            decreases clients.len() - i,
        {
            assert(clients@.take(i + 1).drop_last() =~= clients@.take(i as int));
            if !self.contains_key(clients[i]) {
                out.push(clients[i]);
            }
            i += 1;
        }
        assert(clients@.take(clients.len() as int) =~= clients@);
        out
    }

    /// Sets the entry of `peer` to `commands` and gives back what the entry
    /// held before, if there was one.
    pub fn insert(&mut self, peer: ClientId, commands: Vec<Command>) -> (r: Option<Vec<Command>>)
        requires
            old(self).wf(),
        ensures
            final(self).wf(),
            final(self)@ == bundle_insert(old(self)@, peer, commands.deep_view()),
            match r {
                Some(previous) => bundle_get(old(self)@, peer) == Some(previous.deep_view()),
                None => !bundle_contains(old(self)@, peer),
            },
    {
        let ghost before = self@;
        let ghost held = self.0@;
        let ghost added = commands.deep_view();
        proof {
            lemma_listing(held, before);
            assert(bundle_get(before, peer) == mapping_of(held, peer));
        }
        let previous = self.0.insert(peer, commands);
        proof {
            let now = self.0@;
            let after = bundle_insert(before, peer, added);
            lemma_bundle_insert_ascending(before, peer, added);
            lemma_bundle_insert_places(before, peer, added);
            lemma_replaced_where_held(before, peer);
            if held.contains_key(peer) {
                assert(now.dom() =~= held.dom());
            }
            assert forall|other: ClientId| #[trigger]
                bundle_get(after, other) == mapping_of(now, other) by {
                lemma_bundle_insert(before, peer, added, other);
                assert(bundle_get(before, other) == mapping_of(held, other));
            }
            assert(lists(after, now));
            lemma_listing(now, after);
        }
        previous
    }
}

impl DeepView for LockstepClientCommands {
    type V = BundleView;

    open spec fn deep_view(&self) -> BundleView {
        self@
    }
}

/// A log as a mathematical value: one bundle for each tick from `0` on.
pub type LogView = Seq<BundleView>;

/// Whether every bundle of `log` keeps its peers in ascending order.
pub open spec fn log_wf(log: LogView) -> bool {
    forall|t: int| 0 <= t < log.len() ==> ascending_peers(#[trigger] log[t])
}

/// What a lookup of `tick` finds: nothing past the end of the log.
pub open spec fn log_get(log: LogView, tick: SimTick) -> Option<BundleView> {
    if tick < log.len() {
        Some(log[tick as int])
    } else {
        None
    }
}

/// The bundle that `log` stands for at `tick`: a tick past its end has no
/// entries.
pub open spec fn log_bundle(log: LogView, tick: SimTick) -> BundleView {
    if tick < log.len() {
        log[tick as int]
    } else {
        BundleView::empty()
    }
}

/// `log` made `size` long: cut where it is longer, filled up with `value`
/// where it is shorter.
pub open spec fn log_resize(log: LogView, size: nat, value: BundleView) -> LogView {
    if size <= log.len() {
        log.take(size as int)
    } else {
        log + Seq::new((size - log.len()) as nat, |i: int| value)
    }
}

/// `log` filled up with empty bundles to at least `size` entries. It never
/// gets shorter.
pub open spec fn log_grow(log: LogView, size: nat) -> LogView {
    if size <= log.len() {
        log
    } else {
        log_resize(log, size, BundleView::empty())
    }
}

/// `log` after `peer`'s entry at `tick` was set to `commands`.
pub open spec fn log_record(
    log: LogView,
    tick: SimTick,
    peer: ClientId,
    commands: Seq<CommandView>,
) -> LogView {
    let grown = log_grow(log, (tick + 1) as nat);
    grown.update(tick as int, bundle_insert(grown[tick as int], peer, commands))
}

/// `log` after the whole bundle at `tick` was set to `bundle`.
pub open spec fn log_install(log: LogView, tick: SimTick, bundle: BundleView) -> LogView {
    log_grow(log, (tick + 1) as nat).update(tick as int, bundle)
}

/// Makes `slots` exactly `size` long.
fn resize_slots(slots: &mut Vec<LockstepClientCommands>, size: usize, value: &LockstepClientCommands)
    ensures
        final(slots).deep_view() == log_resize(old(slots).deep_view(), size as nat, value@),
{
    let ghost before = slots.deep_view();
    if size <= slots.len() {
        slots.truncate(size);
        assert(slots.deep_view() =~= before.take(size as int));
    } else {
        while slots.len() < size
            invariant
                before.len() <= slots.len() <= size,
                forall|t: int| 0 <= t < before.len() ==> slots@[t]@ == before[t],
                forall|t: int| before.len() <= t < slots.len() ==> slots@[t]@ == value@,
            decreases size - slots.len(),
        {
            slots.push(value.clone());
        }
        assert(slots.deep_view() =~= log_resize(before, size as nat, value@));
    }
}

/// Makes `slots` at least `size` long.
fn grow_slots(slots: &mut Vec<LockstepClientCommands>, size: usize)
    ensures
        final(slots).deep_view() == log_grow(old(slots).deep_view(), size as nat),
{
    if slots.len() < size {
        let empty = LockstepClientCommands::new();
        resize_slots(slots, size, &empty);
    }
}

/// Sets `peer`'s entry in the bundle of `tick`.
fn record_in_slots(
    slots: &mut Vec<LockstepClientCommands>,
    tick: SimTick,
    peer: ClientId,
    commands: Vec<Command>,
)
    requires
        tick < SimTick::MAX,
        log_wf(old(slots).deep_view()),
    ensures
        final(slots).deep_view() == log_record(
            old(slots).deep_view(),
            tick,
            peer,
            commands.deep_view(),
        ),
        log_wf(final(slots).deep_view()),
{
    let ghost before = slots.deep_view();
    let ghost added = commands.deep_view();
    let index = tick as usize;
    grow_slots(slots, index + 1);
    let ghost grown = slots.deep_view();
    assert(log_wf(grown)) by {
        assert forall|t: int| 0 <= t < grown.len() implies ascending_peers(#[trigger] grown[t]) by {
            if t < before.len() {
                assert(grown[t] == before[t]);
            }
        }
    }
    let mut bundle = slots.remove(index);
    assert(bundle@ == grown[index as int]);
    bundle.insert(peer, commands);
    slots.insert(index, bundle);
    assert(slots.deep_view() =~= grown.update(
        index as int,
        bundle_insert(grown[index as int], peer, added),
    ));
    assert(log_wf(slots.deep_view())) by {
        assert forall|t: int| 0 <= t < slots.len() implies ascending_peers(
            #[trigger] slots.deep_view()[t],
        ) by {
            if t != index {
                assert(slots.deep_view()[t] == grown[t]);
            }
        }
    }
}

/// Sets the whole bundle of `tick`.
fn install_in_slots(
    slots: &mut Vec<LockstepClientCommands>,
    tick: SimTick,
    bundle: LockstepClientCommands,
)
    requires
        tick < SimTick::MAX,
    ensures
        final(slots).deep_view() == log_install(old(slots).deep_view(), tick, bundle@),
{
    let index = tick as usize;
    grow_slots(slots, index + 1);
    let ghost grown = slots.deep_view();
    let ghost installed = bundle@;
    assert(slots.len() == grown.len());
    slots.set(index, bundle);
    assert(slots.deep_view() =~= grown.update(index as int, installed));
}

/// What each peer sent, by the tick of the peer that sent it. Only a host
/// keeps this log, and only to see who is still sending.
#[derive(Debug, PartialEq, Eq)]
pub struct LockstepGameCommandsReceived(Vec<LockstepClientCommands>);

impl View for LockstepGameCommandsReceived {
    type V = LogView;

    closed spec fn view(&self) -> LogView {
        self.0.deep_view()
    }
}

impl Default for LockstepGameCommandsReceived {
    fn default() -> (r: Self)
        ensures
            r@ == LogView::empty(),
            r.wf(),
    {
        LockstepGameCommandsReceived::new()
    }
}

impl LockstepGameCommandsReceived {
    /// The invariant of a log: each of its bundles is well-formed.
    pub open spec fn wf(&self) -> bool {
        log_wf(self@)
    }

    /// A log without ticks.
    pub fn new() -> (r: Self)
        ensures
            r@ == LogView::empty(),
            r.wf(),
    {
        let r = LockstepGameCommandsReceived(Vec::new());
        assert(r@ =~= LogView::empty());
        r
    }

    /// The number of ticks that the log covers.
    pub fn len(&self) -> (r: usize)
        ensures
            r == self@.len(),
    {
        self.0.len()
    }

    /// The bundle of `tick`, or nothing past the end of the log.
    pub fn get(&self, tick: SimTick) -> (r: Option<&LockstepClientCommands>)
        ensures
            match r {
                Some(bundle) => log_get(self@, tick) == Some(bundle@),
                None => log_get(self@, tick) is None,
            },
    {
        let index = tick as usize;
        if index < self.0.len() {
            Some(&self.0[index])
        } else {
            None
        }
    }

    /// Makes the log `size` ticks long, cutting it or filling it with copies
    /// of `value`.
    pub fn resize(&mut self, size: u32, value: LockstepClientCommands)
        requires
            old(self).wf(),
            value.wf(),
        ensures
            final(self)@ == log_resize(old(self)@, size as nat, value@),
            final(self).wf(),
    {
        resize_slots(&mut self.0, size as usize, &value);
    }

    /// Empties the log.
    pub fn clear(&mut self)
        ensures
            final(self)@ == LogView::empty(),
            final(self).wf(),
    {
        self.0.clear();
        assert(self@ =~= LogView::empty());
    }

    /// Notes that `peer` sent `commands` at its tick `tick`, growing the log
    /// where it is too short and replacing what `peer` sent for that tick
    /// before.
    pub fn record(&mut self, tick: SimTick, peer: ClientId, commands: Vec<Command>)
        requires
            tick < SimTick::MAX,
            old(self).wf(),
        ensures
            final(self)@ == log_record(old(self)@, tick, peer, commands.deep_view()),
            final(self).wf(),
    {
        record_in_slots(&mut self.0, tick, peer, commands);
    }
}

/// What is executed at each tick, by the tick of execution. The host fills it
/// as commands arrive; every other peer fills it from the host's broadcasts.
#[derive(Debug, PartialEq, Eq)]
pub struct LockstepGameCommandBuffer(Vec<LockstepClientCommands>);

impl View for LockstepGameCommandBuffer {
    type V = LogView;

    closed spec fn view(&self) -> LogView {
        self.0.deep_view()
    }
}

impl Default for LockstepGameCommandBuffer {
    fn default() -> (r: Self)
        ensures
            r@ == LogView::empty(),
            r.wf(),
    {
        LockstepGameCommandBuffer::new()
    }
}

impl LockstepGameCommandBuffer {
    /// The invariant of a log: each of its bundles is well-formed.
    pub open spec fn wf(&self) -> bool {
        log_wf(self@)
    }

    /// A log without ticks.
    pub fn new() -> (r: Self)
        ensures
            r@ == LogView::empty(),
            r.wf(),
    {
        let r = LockstepGameCommandBuffer(Vec::new());
        assert(r@ =~= LogView::empty());
        r
    }

    /// The number of ticks that the log covers.
    pub fn len(&self) -> (r: usize)
        ensures
            r == self@.len(),
    {
        self.0.len()
    }

    /// The bundle of `tick`, or nothing past the end of the log.
    pub fn get(&self, tick: SimTick) -> (r: Option<&LockstepClientCommands>)
        ensures
            match r {
                Some(bundle) => log_get(self@, tick) == Some(bundle@),
                None => log_get(self@, tick) is None,
            },
    {
        let index = tick as usize;
        if index < self.0.len() {
            Some(&self.0[index])
        } else {
            None
        }
    }

    /// Makes the log `size` ticks long, cutting it or filling it with copies
    /// of `value`.
    pub fn resize(&mut self, size: u32, value: LockstepClientCommands)
        requires
            old(self).wf(),
            value.wf(),
        ensures
            final(self)@ == log_resize(old(self)@, size as nat, value@),
            final(self).wf(),
    {
        resize_slots(&mut self.0, size as usize, &value);
    }

    /// Empties the log.
    pub fn clear(&mut self)
        ensures
            final(self)@ == LogView::empty(),
            final(self).wf(),
    {
        self.0.clear();
        assert(self@ =~= LogView::empty());
    }

    /// Fills the log with empty bundles up to and including `tick`. A log
    /// that already reaches `tick` stays as it is.
    pub fn grow_to(&mut self, tick: SimTick)
        requires
            tick < SimTick::MAX,
            old(self).wf(),
        ensures
            final(self)@ == log_grow(old(self)@, (tick + 1) as nat),
            final(self).wf(),
    {
        grow_slots(&mut self.0, tick as usize + 1);
    }

    /// Schedules `commands` of `peer` for execution at `tick`, growing the
    /// log where it is too short and replacing what `peer` had there.
    pub fn record(&mut self, tick: SimTick, peer: ClientId, commands: Vec<Command>)
        requires
            tick < SimTick::MAX,
            old(self).wf(),
        ensures
            final(self)@ == log_record(old(self)@, tick, peer, commands.deep_view()),
            final(self).wf(),
    {
        record_in_slots(&mut self.0, tick, peer, commands);
    }

    /// Sets the bundle of `tick` to `bundle`, growing the log where it is too
    /// short.
    pub fn install(&mut self, tick: SimTick, bundle: LockstepClientCommands)
        requires
            tick < SimTick::MAX,
            old(self).wf(),
            bundle.wf(),
        ensures
            final(self)@ == log_install(old(self)@, tick, bundle@),
            final(self).wf(),
    {
        install_in_slots(&mut self.0, tick, bundle);
    }
}

/// Whether `bundle` has an entry for each of `clients`.
pub open spec fn all_present(bundle: BundleView, clients: Seq<ClientId>) -> bool {
    forall|i: int| 0 <= i < clients.len() ==> bundle_contains(bundle, #[trigger] clients[i])
}

/// Those of `clients` for which `bundle` has no entry, in the order of
/// `clients`.
pub open spec fn absent_peers(bundle: BundleView, clients: Seq<ClientId>) -> Seq<ClientId>
    decreases clients.len(),
{
    if clients.len() == 0 {
        Seq::empty()
    } else {
        let before = absent_peers(bundle, clients.drop_last());
        if bundle_contains(bundle, clients.last()) {
            before
        } else {
            before.push(clients.last())
        }
    }
}

/// Nobody is absent exactly when everybody is present.
pub proof fn lemma_absent_none(bundle: BundleView, clients: Seq<ClientId>)
    ensures
        absent_peers(bundle, clients).len() == 0 <==> all_present(bundle, clients),
    decreases clients.len(),
{
    if clients.len() > 0 {
        let front = clients.drop_last();
        lemma_absent_none(bundle, front);
        if all_present(bundle, clients) {
            assert forall|i: int| 0 <= i < front.len() implies bundle_contains(
                bundle,
                #[trigger] front[i],
            ) by {
                assert(front[i] == clients[i]);
            }
            assert(bundle_contains(bundle, clients[clients.len() - 1]));
        }
        if absent_peers(bundle, clients).len() == 0 {
            assert forall|i: int| 0 <= i < clients.len() implies bundle_contains(
                bundle,
                #[trigger] clients[i],
            ) by {
                if i < front.len() {
                    assert(front[i] == clients[i]);
                }
            }
        }
    }
}

/// A peer is reported absent exactly when it is one of `clients` and has no
/// entry.
pub proof fn lemma_absent_members(bundle: BundleView, clients: Seq<ClientId>, peer: ClientId)
    ensures
        absent_peers(bundle, clients).contains(peer) <==> (clients.contains(peer)
            && !bundle_contains(bundle, peer)),
    decreases clients.len(),
{
    if clients.len() > 0 {
        let front = clients.drop_last();
        let before = absent_peers(bundle, front);
        lemma_absent_members(bundle, front, peer);
        if clients.contains(peer) {
            let i = choose|i: int| 0 <= i < clients.len() && clients[i] == peer;
            if i < front.len() {
                assert(front[i] == peer);
            }
        }
        if front.contains(peer) {
            let i = choose|i: int| 0 <= i < front.len() && front[i] == peer;
            assert(clients[i] == peer);
        }
        assert(clients[clients.len() - 1] == clients.last());
        if !bundle_contains(bundle, clients.last()) {
            let after = before.push(clients.last());
            if after.contains(peer) {
                let i = choose|i: int| 0 <= i < after.len() && after[i] == peer;
                if i < before.len() {
                    assert(before[i] == peer);
                }
            }
            if before.contains(peer) {
                let i = choose|i: int| 0 <= i < before.len() && before[i] == peer;
                assert(after[i] == peer);
            }
            assert(after[before.len() as int] == clients.last());
        }
    }
}

/// What a peer sends to the host: its commands for the tick it has reached.
/// A message without commands is the peer's heartbeat.
#[derive(Debug, PartialEq, Eq)]
pub struct ClientSendCommands {
    pub issued_tick: SimTick,
    pub commands: Vec<Command>,
}

/// A peer's message as a mathematical value.
pub struct ClientSendCommandsView {
    pub issued_tick: SimTick,
    pub commands: Seq<CommandView>,
}

impl View for ClientSendCommands {
    type V = ClientSendCommandsView;

    open spec fn view(&self) -> ClientSendCommandsView {
        ClientSendCommandsView {
            issued_tick: self.issued_tick,
            commands: self.commands.deep_view(),
        }
    }
}

impl Default for ClientSendCommands {
    fn default() -> (r: Self)
        ensures
            r.issued_tick == 0,
            r.commands@.len() == 0,
    {
        ClientSendCommands { issued_tick: 0, commands: Vec::new() }
    }
}

impl Clone for ClientSendCommands {
    fn clone(&self) -> (r: Self)
        ensures
            r@ == self@,
    {
        ClientSendCommands {
            issued_tick: self.issued_tick,
            commands: copy_commands(&self.commands),
        }
    }
}

/// What the host sends to every peer when a tick begins: the tick and all
/// that is executed at it.
#[derive(Debug, PartialEq, Eq)]
pub struct ServerSendCommands {
    pub tick: SimTick,
    pub commands: LockstepClientCommands,
}

/// A broadcast as a mathematical value.
pub struct ServerSendCommandsView {
    pub tick: SimTick,
    pub commands: BundleView,
}

impl View for ServerSendCommands {
    type V = ServerSendCommandsView;

    open spec fn view(&self) -> ServerSendCommandsView {
        ServerSendCommandsView { tick: self.tick, commands: self.commands@ }
    }
}

impl Default for ServerSendCommands {
    fn default() -> (r: Self)
        ensures
            r.tick == 0,
            r.commands@ == BundleView::empty(),
            r.commands.wf(),
    {
        ServerSendCommands { tick: 0, commands: LockstepClientCommands::new() }
    }
}

impl Clone for ServerSendCommands {
    fn clone(&self) -> (r: Self)
        ensures
            r@ == self@,
    {
        ServerSendCommands { tick: self.tick, commands: self.commands.clone() }
    }
}

/// The peer that a message is booked under: the sender that the transport
/// names, or the host's own peer where the host sent the message to itself.
pub open spec fn issuing_peer(sender: Option<ClientId>) -> ClientId {
    match sender {
        Some(id) => id,
        None => HOST_CLIENT_ID,
    }
}

/// The ticks by which a sender's commands are put off on account of its
/// round trip: half the round trip in ticks, rounded up, or one tick for a
/// sender without a round trip, which is the host itself.
pub open spec fn input_delay(rtt: Option<u64>, settings: SimulationSettings) -> int {
    match rtt {
        Some(nanos) => rtt_delay_ticks(nanos, settings.tick_timestep),
        None => 1,
    }
}

/// The tick at which commands are executed that reach the host at tick
/// `current` from a sender with round trip `rtt`.
pub open spec fn execute_tick(current: SimTick, rtt: Option<u64>, settings: SimulationSettings)
    -> int {
    current + input_delay(rtt, settings) + settings.base_input_tick_delay
}

/// What the host answers to a message: a fault where a tick would leave the
/// clock's range, else the tick at which the message's commands were
/// scheduled, if it brought any.
pub open spec fn receive_result(
    event: ClientSendCommandsView,
    rtt: Option<u64>,
    current: SimTick,
    settings: SimulationSettings,
) -> Result<Option<SimTick>, SessionFault> {
    let at = execute_tick(current, rtt, settings);
    if event.issued_tick == SimTick::MAX || (event.commands.len() > 0 && at >= SimTick::MAX) {
        Err(SessionFault::TickOverflow)
    } else if event.commands.len() == 0 {
        Ok(None)
    } else {
        Ok(Some(at as SimTick))
    }
}

/// The host takes in a peer's message.
///
/// The message is always noted in the received log, under the sender's own
/// tick, empty or not: that is how the host sees who is alive. If it brings
/// commands, they are scheduled in the broadcast log at `execute_tick`. Either
/// entry replaces what the same peer had at that tick.
pub fn receive_commands_server(
    sender: Option<ClientId>,
    event: &ClientSendCommands,
    sender_rtt: Option<u64>,
    received: &mut LockstepGameCommandsReceived,
    history: &mut LockstepGameCommandBuffer,
    current_tick: &SimulationTick,
    settings: &SimulationSettings,
) -> (r: Result<Option<SimTick>, SessionFault>)
    requires
        settings.wf(),
        old(received).wf(),
        old(history).wf(),
    ensures
        final(received).wf(),
        final(history).wf(),
        r == receive_result(event@, sender_rtt, current_tick.0, *settings),
        r is Err ==> final(received)@ == old(received)@,
        r is Ok ==> final(received)@ == log_record(
            old(received)@,
            event.issued_tick,
            issuing_peer(sender),
            event@.commands,
        ),
        match r {
            Ok(Some(at)) => final(history)@ == log_record(
                old(history)@,
                at,
                issuing_peer(sender),
                event@.commands,
            ),
            _ => final(history)@ == old(history)@,
        },
{
    let peer: ClientId = match sender {
        Some(id) => id,
        None => HOST_CLIENT_ID,
    };
    let delay: u64 = match sender_rtt {
        Some(nanos) => delay_ticks(nanos, settings.tick_timestep),
        None => 1,
    };
    let at: u64 = current_tick.0 as u64 + delay + settings.base_input_tick_delay as u64;
    let scheduled = event.commands.len() > 0;
    if event.issued_tick == SimTick::MAX || (scheduled && at >= SimTick::MAX as u64) {
        return Err(SessionFault::TickOverflow);
    }
    received.record(event.issued_tick, peer, copy_commands(&event.commands));
    if scheduled {
        history.record(at as SimTick, peer, copy_commands(&event.commands));
        Ok(Some(at as SimTick))
    } else {
        Ok(None)
    }
}

/// The message with which a peer opens a run: no commands, tick `0`. The
/// host's clock only starts once it has one from every peer.
pub fn send_initial_commands_to_server() -> (r: ClientSendCommands)
    ensures
        r.issued_tick == 0,
        r@.commands.len() == 0,
{
    ClientSendCommands::default()
}

/// A peer's answer to a broadcast: a message for the tick it has just been
/// given, with the input that has gathered since the last one. Sent empty it
/// is the heartbeat that tells the host the peer is alive. A process without a
/// local peer, a dedicated host, sends nothing.
pub fn send_empty_commands_to_server_on_tick(
    tick: &ServerSendCommands,
    local_client: bool,
    pending: Vec<Command>,
) -> (r: Option<ClientSendCommands>)
    ensures
        local_client ==> r is Some && r->Some_0.issued_tick == tick.tick && r->Some_0.commands
            == pending,
        !local_client ==> r is None,
{
    if local_client {
        Some(ClientSendCommands { issued_tick: tick.tick, commands: pending })
    } else {
        None
    }
}

} // verus!
