//! The frames in which messages travel.
//!
//! A command is framed as its kind, the length of its payload and the
//! payload. A peer's message is the number of its commands, the commands and
//! the tick it was issued at. A broadcast is the number of peers, for each
//! peer in ascending order its id, the number of its commands and the
//! commands, and last the tick. The number of peers is one byte and the
//! number of a peer's commands sixteen bits: a message with more of either
//! has no frame and is refused, so that whatever is written reads back as
//! what it was.

use crate::commands::{
    ascending_peers, bundle_insert, lemma_bundle_insert_last, BundleView, ClientSendCommands,
    ClientSendCommandsView, Command, CommandView, LockstepClientCommands, ServerSendCommands,
    ServerSendCommandsView,
};
use crate::connections::ClientId;
use crate::wire::{
    lemma_take_varint_bytes, lemma_u16_fits, lemma_u32_fits, lemma_u64_fits, read_u16, read_u32,
    read_u64, read_u8, take_u16, take_u32, take_u64, take_u8, varint_bytes, write_u16, write_u32,
    write_u64, write_u8, WireError,
};
use vstd::prelude::*;
use vstd::slice::slice_to_vec;

verus! {

/// The frame of one command.
pub open spec fn command_frame(c: CommandView) -> Seq<u8> {
    varint_bytes(c.type_id as nat) + varint_bytes(c.payload.len()) + c.payload
}

/// The frames of `cs`, one after the other.
pub open spec fn commands_frame(cs: Seq<CommandView>) -> Seq<u8>
    decreases cs.len(),
{
    if cs.len() == 0 {
        Seq::empty()
    } else {
        command_frame(cs[0]) + commands_frame(cs.skip(1))
    }
}

/// The frame of a peer's message.
pub open spec fn client_frame(event: ClientSendCommandsView) -> Seq<u8> {
    varint_bytes(event.commands.len()) + commands_frame(event.commands)
        + varint_bytes(event.issued_tick as nat)
}

/// The frame of one peer's entry in a broadcast.
pub open spec fn entry_frame(entry: (ClientId, Seq<CommandView>)) -> Seq<u8> {
    varint_bytes(entry.0 as nat) + varint_bytes(entry.1.len())
        + commands_frame(entry.1)
}

/// The frames of the entries of `b`, in the order of `b`.
pub open spec fn entries_frame(b: BundleView) -> Seq<u8>
    decreases b.len(),
{
    if b.len() == 0 {
        Seq::empty()
    } else {
        entry_frame(b[0]) + entries_frame(b.skip(1))
    }
}

/// The frame of a broadcast.
pub open spec fn server_frame(event: ServerSendCommandsView) -> Seq<u8> {
    seq![event.commands.len() as u8] + entries_frame(event.commands) + varint_bytes(
        event.tick as nat,
    )
}

/// What reading one command from the front of `bytes` gives.
pub open spec fn parse_command(bytes: Seq<u8>) -> Result<(CommandView, Seq<u8>), WireError> {
    match take_u16(bytes) {
        Err(e) => Err(e),
        Ok((type_id, after_kind)) => match take_u64(after_kind) {
            Err(e) => Err(e),
            Ok((len, after_len)) => if len > after_len.len() {
                Err(WireError::UnexpectedEnd)
            } else {
                Ok(
                    (
                        CommandView { type_id, payload: after_len.take(len as int) },
                        after_len.skip(len as int),
                    ),
                )
            },
        },
    }
}

/// What reading `count` commands from the front of `bytes` gives.
pub open spec fn parse_commands(bytes: Seq<u8>, count: nat) -> Result<
    (Seq<CommandView>, Seq<u8>),
    WireError,
>
    decreases count,
{
    if count == 0 {
        Ok((Seq::empty(), bytes))
    } else {
        match parse_command(bytes) {
            Err(e) => Err(e),
            Ok((first, rest)) => match parse_commands(rest, (count - 1) as nat) {
                Err(e) => Err(e),
                Ok((others, left)) => Ok((seq![first] + others, left)),
            },
        }
    }
}

/// What reading a peer's message from `bytes` gives. Bytes after the message
/// are not looked at.
pub open spec fn parse_client(bytes: Seq<u8>) -> Result<ClientSendCommandsView, WireError> {
    match take_u16(bytes) {
        Err(e) => Err(e),
        Ok((count, after_count)) => match parse_commands(after_count, count as nat) {
            Err(e) => Err(e),
            Ok((commands, after_commands)) => match take_u32(after_commands) {
                Err(e) => Err(e),
                Ok((issued_tick, _)) => Ok(ClientSendCommandsView { issued_tick, commands }),
            },
        },
    }
}

/// What reading one peer's entry from the front of `bytes` gives.
pub open spec fn parse_entry(bytes: Seq<u8>) -> Result<
    ((ClientId, Seq<CommandView>), Seq<u8>),
    WireError,
> {
    match take_u64(bytes) {
        Err(e) => Err(e),
        Ok((peer, after_peer)) => match take_u16(after_peer) {
            Err(e) => Err(e),
            Ok((count, after_count)) => match parse_commands(after_count, count as nat) {
                Err(e) => Err(e),
                Ok((commands, rest)) => Ok(((peer, commands), rest)),
            },
        },
    }
}

/// What reading `count` entries from the front of `bytes` into `bundle`
/// gives. An entry for a peer that the bundle already holds replaces it.
pub open spec fn parse_entries(bytes: Seq<u8>, count: nat, bundle: BundleView) -> Result<
    (BundleView, Seq<u8>),
    WireError,
>
    decreases count,
{
    if count == 0 {
        Ok((bundle, bytes))
    } else {
        match parse_entry(bytes) {
            Err(e) => Err(e),
            Ok((entry, rest)) => parse_entries(
                rest,
                (count - 1) as nat,
                bundle_insert(bundle, entry.0, entry.1),
            ),
        }
    }
}

/// What reading a broadcast from `bytes` gives. Bytes after the broadcast are
/// not looked at.
pub open spec fn parse_server(bytes: Seq<u8>) -> Result<ServerSendCommandsView, WireError> {
    match take_u8(bytes) {
        Err(e) => Err(e),
        Ok((count, after_count)) => match parse_entries(
            after_count,
            count as nat,
            BundleView::empty(),
        ) {
            Err(e) => Err(e),
            Ok((commands, after_entries)) => match take_u32(after_entries) {
                Err(e) => Err(e),
                Ok((tick, _)) => Ok(ServerSendCommandsView { tick, commands }),
            },
        },
    }
}

/// Whether a peer's message has a frame: the number of its commands fits
/// sixteen bits.
pub open spec fn client_fits(event: ClientSendCommandsView) -> bool {
    event.commands.len() <= u16::MAX
}

/// Whether a broadcast has a frame: the number of its peers fits one byte,
/// and the number of each peer's commands sixteen bits.
pub open spec fn server_fits(event: ServerSendCommandsView) -> bool {
    &&& event.commands.len() <= u8::MAX
    &&& forall|i: int|
        0 <= i < event.commands.len() ==> (#[trigger] event.commands[i]).1.len() <= u16::MAX
}

/// Whether each payload of `cs` has a length that the frame can say.
pub open spec fn payloads_fit(cs: Seq<CommandView>) -> bool {
    forall|i: int| 0 <= i < cs.len() ==> (#[trigger] cs[i]).payload.len() <= u64::MAX
}

/// Whether `cs` reads back from its frame: no more commands than the count
/// can say, and payloads that fit.
pub open spec fn commands_fit(cs: Seq<CommandView>) -> bool {
    cs.len() <= u16::MAX && payloads_fit(cs)
}

/// Whether `b` reads back from its frame: no more peers than the count can
/// say, each with commands that fit.
pub open spec fn bundle_fits(b: BundleView) -> bool {
    b.len() <= u8::MAX && forall|i: int| 0 <= i < b.len() ==> commands_fit((#[trigger] b[i]).1)
}

/// Writing one more command extends the frame by that command's frame.
pub proof fn lemma_commands_frame_push(cs: Seq<CommandView>, c: CommandView)
    ensures
        commands_frame(cs.push(c)) == commands_frame(cs) + command_frame(c),
    decreases cs.len(),
{
    let all = cs.push(c);
    if cs.len() == 0 {
        assert(all.skip(1) =~= Seq::<CommandView>::empty());
        assert(commands_frame(all.skip(1)) =~= Seq::<u8>::empty());
        assert(all[0] == c);
        assert(commands_frame(all) =~= command_frame(c));
        assert(commands_frame(cs) + command_frame(c) =~= command_frame(c));
    } else {
        assert(all.skip(1) =~= cs.skip(1).push(c));
        lemma_commands_frame_push(cs.skip(1), c);
        assert(commands_frame(all) =~= commands_frame(cs) + command_frame(c));
    }
}

/// Writing one more entry extends the frame by that entry's frame.
pub proof fn lemma_entries_frame_push(b: BundleView, entry: (ClientId, Seq<CommandView>))
    ensures
        entries_frame(b.push(entry)) == entries_frame(b) + entry_frame(entry),
    decreases b.len(),
{
    let all = b.push(entry);
    if b.len() == 0 {
        assert(all.skip(1) =~= BundleView::empty());
        assert(entries_frame(all.skip(1)) =~= Seq::<u8>::empty());
        assert(all[0] == entry);
        assert(entries_frame(all) =~= entry_frame(entry));
        assert(entries_frame(b) + entry_frame(entry) =~= entry_frame(entry));
    } else {
        assert(all.skip(1) =~= b.skip(1).push(entry));
        lemma_entries_frame_push(b.skip(1), entry);
        assert(entries_frame(all) =~= entries_frame(b) + entry_frame(entry));
    }
}

/// A command reads back from its frame, whatever follows.
pub proof fn lemma_parse_command_frame(c: CommandView, rest: Seq<u8>)
    requires
        c.payload.len() <= u64::MAX,
    ensures
        parse_command(command_frame(c) + rest) == Ok::<(CommandView, Seq<u8>), WireError>(
            (c, rest),
        ),
{
    let after_len = c.payload + rest;
    let after_kind = varint_bytes(c.payload.len()) + after_len;
    lemma_u16_fits(c.type_id);
    lemma_take_varint_bytes(c.type_id as nat, 3, 3, after_kind);
    assert(command_frame(c) + rest =~= varint_bytes(c.type_id as nat) + after_kind);
    lemma_u64_fits(c.payload.len() as u64);
    lemma_take_varint_bytes(c.payload.len(), 10, 1, after_len);
    assert(after_len.take(c.payload.len() as int) =~= c.payload);
    assert(after_len.skip(c.payload.len() as int) =~= rest);
}

/// Commands read back from their frames, whatever follows.
pub proof fn lemma_parse_commands_frame(cs: Seq<CommandView>, rest: Seq<u8>)
    requires
        payloads_fit(cs),
    ensures
        parse_commands(commands_frame(cs) + rest, cs.len()) == Ok::<
            (Seq<CommandView>, Seq<u8>),
            WireError,
        >((cs, rest)),
    decreases cs.len(),
{
    if cs.len() == 0 {
        assert(commands_frame(cs) + rest =~= rest);
        assert(cs =~= Seq::<CommandView>::empty());
    } else {
        let tail = cs.skip(1);
        let after = commands_frame(tail) + rest;
        assert(commands_frame(cs) + rest =~= command_frame(cs[0]) + after);
        lemma_parse_command_frame(cs[0], after);
        assert forall|i: int| 0 <= i < tail.len() implies (#[trigger] tail[i]).payload.len()
            <= u64::MAX by {
            assert(tail[i] == cs[i + 1]);
        }
        lemma_parse_commands_frame(tail, rest);
        assert(seq![cs[0]] + tail =~= cs);
        assert(parse_commands(after, tail.len()) == Ok::<(Seq<CommandView>, Seq<u8>), WireError>(
            (tail, rest),
        ));
        assert(parse_command(commands_frame(cs) + rest) == Ok::<(CommandView, Seq<u8>), WireError>(
            (cs[0], after),
        ));
    }
}

/// A peer's message reads back from its frame, whatever follows, provided
/// its commands fit.
pub proof fn lemma_client_round_trip(event: ClientSendCommandsView, rest: Seq<u8>)
    requires
        commands_fit(event.commands),
    ensures
        parse_client(client_frame(event) + rest) == Ok::<ClientSendCommandsView, WireError>(event),
{
    let count = event.commands.len();
    let after_commands = varint_bytes(event.issued_tick as nat) + rest;
    let after_count = commands_frame(event.commands) + after_commands;
    assert(client_frame(event) + rest =~= varint_bytes(count) + after_count);
    lemma_u16_fits(count as u16);
    lemma_take_varint_bytes(count, 3, 3, after_count);
    lemma_parse_commands_frame(event.commands, after_commands);
    lemma_u32_fits(event.issued_tick);
    lemma_take_varint_bytes(event.issued_tick as nat, 5, 15, rest);
}

/// An entry reads back from its frame, whatever follows.
pub proof fn lemma_parse_entry_frame(entry: (ClientId, Seq<CommandView>), rest: Seq<u8>)
    requires
        commands_fit(entry.1),
    ensures
        parse_entry(entry_frame(entry) + rest) == Ok::<
            ((ClientId, Seq<CommandView>), Seq<u8>),
            WireError,
        >((entry, rest)),
{
    let count = entry.1.len();
    let after_count = commands_frame(entry.1) + rest;
    let after_peer = varint_bytes(count) + after_count;
    assert(entry_frame(entry) + rest =~= varint_bytes(entry.0 as nat) + after_peer);
    lemma_u64_fits(entry.0);
    lemma_take_varint_bytes(entry.0 as nat, 10, 1, after_peer);
    lemma_u16_fits(count as u16);
    lemma_take_varint_bytes(count, 3, 3, after_count);
    lemma_parse_commands_frame(entry.1, rest);
}

/// The entries of an ascending bundle from place `k` on, read into the
/// entries before `k`, give the bundle back.
pub proof fn lemma_parse_entries_frame(b: BundleView, k: int, rest: Seq<u8>)
    requires
        ascending_peers(b),
        bundle_fits(b),
        0 <= k <= b.len(),
    ensures
        parse_entries(entries_frame(b.skip(k)) + rest, (b.len() - k) as nat, b.take(k)) == Ok::<
            (BundleView, Seq<u8>),
            WireError,
        >((b, rest)),
    decreases b.len() - k,
{
    let tail = b.skip(k);
    if k == b.len() {
        assert(entries_frame(tail) + rest =~= rest);
        assert(b.take(k) =~= b);
    } else {
        let after = entries_frame(tail.skip(1)) + rest;
        assert(tail[0] == b[k]);
        assert(tail.skip(1) =~= b.skip(k + 1));
        assert(entries_frame(tail) + rest =~= entry_frame(b[k]) + after);
        lemma_parse_entry_frame(b[k], after);
        let front = b.take(k);
        assert forall|j: int| 0 <= j < front.len() implies front[j].0 < b[k].0 by {
            assert(front[j] == b[j]);
        }
        lemma_bundle_insert_last(front, b[k].0, b[k].1);
        assert(front.push(b[k]) =~= b.take(k + 1));
        lemma_parse_entries_frame(b, k + 1, rest);
    }
}

/// A broadcast reads back from its frame, peers in the same order, whatever
/// follows, provided its bundle is well-formed and fits.
pub proof fn lemma_server_round_trip(event: ServerSendCommandsView, rest: Seq<u8>)
    requires
        ascending_peers(event.commands),
        bundle_fits(event.commands),
    ensures
        parse_server(server_frame(event) + rest) == Ok::<ServerSendCommandsView, WireError>(event),
{
    let b = event.commands;
    let after_entries = varint_bytes(event.tick as nat) + rest;
    let after_count = entries_frame(b) + after_entries;
    let all = server_frame(event) + rest;
    assert(all =~= seq![b.len() as u8] + after_count);
    assert(all.skip(1) =~= after_count);
    assert(b.skip(0) =~= b);
    assert(b.take(0) =~= BundleView::empty());
    lemma_parse_entries_frame(b, 0, after_entries);
    lemma_u32_fits(event.tick);
    lemma_take_varint_bytes(event.tick as nat, 5, 15, rest);
}

/// A peer's message that has a frame reads back from it as the same
/// message.
pub proof fn lemma_client_message_reads_back(event: ClientSendCommands)
    requires
        client_fits(event@),
    ensures
        parse_client(client_frame(event@)) == Ok::<ClientSendCommandsView, WireError>(event@),
{
    assert forall|i: int| 0 <= i < event@.commands.len() implies (
    #[trigger] event@.commands[i]).payload.len() <= u64::MAX by {
        let payload = event.commands@[i].payload;
        assert(payload.len() == payload@.len());
    }
    lemma_client_round_trip(event@, Seq::empty());
    assert(client_frame(event@) + Seq::<u8>::empty() =~= client_frame(event@));
}

/// A broadcast that has a frame reads back from it as the same broadcast,
/// with its peers in the same order.
pub proof fn lemma_server_message_reads_back(event: ServerSendCommands)
    requires
        event.commands.wf(),
        server_fits(event@),
    ensures
        parse_server(server_frame(event@)) == Ok::<ServerSendCommandsView, WireError>(event@),
{
    event.commands.lemma_payloads_bounded();
    assert forall|i: int| 0 <= i < event.commands@.len() implies commands_fit(
        (#[trigger] event.commands@[i]).1,
    ) by {
        let cs = event.commands@[i].1;
        assert forall|j: int| 0 <= j < cs.len() implies (#[trigger] cs[j]).payload.len()
            <= u64::MAX by {
            assert(event.commands@[i].1[j].payload.len() <= u64::MAX);
        }
    }
    lemma_server_round_trip(event@, Seq::empty());
    assert(server_frame(event@) + Seq::<u8>::empty() =~= server_frame(event@));
}

/// Appends the frame of `command` to `out`.
fn write_command(command: &Command, out: &mut Vec<u8>)
    ensures
        final(out)@ == old(out)@ + command_frame(command@),
{
    let ghost before = out@;
    write_u16(command.type_id, out);
    write_u64(command.payload.len() as u64, out);
    out.extend_from_slice(command.payload.as_slice());
    assert(out@ =~= before + command_frame(command@));
}

/// Appends the frames of `commands` to `out`, in their order.
fn write_commands(commands: &Vec<Command>, out: &mut Vec<u8>)
    ensures
        final(out)@ == old(out)@ + commands_frame(commands.deep_view()),
{
    let ghost before = out@;
    let ghost all = commands.deep_view();
    let mut i: usize = 0;
    assert(all.take(0) =~= Seq::<CommandView>::empty());
    assert(out@ =~= before + commands_frame(all.take(0)));
    while i < commands.len()
        invariant
            i <= commands.len(),
            all == commands.deep_view(),
            out@ == before + commands_frame(all.take(i as int)),
        decreases commands.len() - i,
    {
        let ghost written = out@;
        write_command(&commands[i], out);
        proof {
            lemma_commands_frame_push(all.take(i as int), all[i as int]);
            assert(all.take(i as int).push(all[i as int]) =~= all.take(i + 1));
            assert(out@ =~= before + commands_frame(all.take(i + 1)));
        }
        i += 1;
    }
    assert(all.take(commands.len() as int) =~= all);
}

/// Writes a peer's message to the end of `message`: the number of its
/// commands, each command's frame, and its tick. A message of more than
/// 65535 commands is refused, and `message` stays as it was. What was written
/// reads back as the message.
pub fn serialize_client_send_commands(event: &ClientSendCommands, message: &mut Vec<u8>) -> (r:
    Result<(), WireError>)
    ensures
        r is Ok <==> client_fits(event@),
        r is Ok ==> final(message)@ == old(message)@ + client_frame(event@),
        r is Ok ==> parse_client(client_frame(event@)) == Ok::<ClientSendCommandsView, WireError>(
            event@,
        ),
        r is Err ==> r == Err::<(), WireError>(WireError::TooLong) && final(message)@ == old(
            message,
        )@,
{
    if event.commands.len() > 0xFFFF {
        return Err(WireError::TooLong);
    }
    let ghost before = message@;
    let count: u16 = event.commands.len() as u16;
    write_u16(count, message);
    write_commands(&event.commands, message);
    write_u32(event.issued_tick, message);
    proof {
        assert(message@ =~= before + client_frame(event@));
        lemma_client_message_reads_back(*event);
    }
    Ok(())
}

/// Whether none of `entries` has more commands than sixteen bits can count.
fn counts_fit(entries: &Vec<(ClientId, &Vec<Command>)>) -> (r: bool)
    ensures
        r == (forall|i: int| 0 <= i < entries@.len() ==> (#[trigger] entries@[i]).1@.len() <= u16::MAX),
{
    let mut i: usize = 0;
    while i < entries.len()
        invariant
            i <= entries@.len(),
            forall|j: int| 0 <= j < i ==> (#[trigger] entries@[j]).1@.len() <= u16::MAX,
        decreases entries@.len() - i,
    {
        if entries[i].1.len() > 0xFFFF {
            return false;
        }
        i += 1;
    }
    true
}

/// Writes a broadcast to the end of `message`: the number of peers, then for
/// each peer, in ascending order of the ids, its id, the number of its
/// commands and each command's frame, and last the tick. A broadcast for
/// more than 255 peers, or with more than 65535 commands of one peer, is
/// refused, and `message` stays as it was. What was written reads back as the
/// broadcast.
pub fn serialize_server_send_commands(event: &ServerSendCommands, message: &mut Vec<u8>) -> (r:
    Result<(), WireError>)
    requires
        event.commands.wf(),
    ensures
        r is Ok <==> server_fits(event@),
        r is Ok ==> final(message)@ == old(message)@ + server_frame(event@),
        r is Ok ==> parse_server(server_frame(event@)) == Ok::<ServerSendCommandsView, WireError>(
            event@,
        ),
        r is Err ==> r == Err::<(), WireError>(WireError::TooLong) && final(message)@ == old(
            message,
        )@,
        ascending_peers(event@.commands),
{
    let entries = event.commands.entries();
    let peers = entries.len();
    let ghost all = event.commands@;
    proof {
        assert forall|i: int| 0 <= i < all.len() implies (#[trigger] all[i]).1.len()
            == entries@[i].1@.len() by {
            assert(entries@[i].1.deep_view() == all[i].1);
        }
    }
    if peers > 0xFF || !counts_fit(&entries) {
        proof {
            if peers <= 0xFF {
                let i = choose|i: int| 0 <= i < entries@.len() && !((#[trigger] entries@[i]).1@.len()
                    <= u16::MAX);
                assert(all[i].1.len() > u16::MAX);
            }
        }
        return Err(WireError::TooLong);
    }
    let ghost before = message@;
    write_u8(peers as u8, message);
    let ghost start = message@;
    let mut i: usize = 0;
    assert(all.take(0) =~= BundleView::empty());
    assert(message@ =~= start + entries_frame(all.take(0)));
    while i < peers
        invariant
            i <= peers,
            peers == entries@.len(),
            peers == all.len(),
            forall|j: int|
                0 <= j < entries@.len() ==> (#[trigger] entries@[j]).0 == all[j].0
                    && entries@[j].1.deep_view() == all[j].1,
            forall|j: int| 0 <= j < all.len() ==> (#[trigger] all[j]).1.len() <= u16::MAX,
            message@ == start + entries_frame(all.take(i as int)),
        decreases peers - i,
    {
        let ghost written = message@;
        let entry = entries[i];
        assert(all[i as int].1.len() <= u16::MAX);
        write_u64(entry.0, message);
        write_u16(entry.1.len() as u16, message);
        write_commands(entry.1, message);
        proof {
            assert(message@ =~= written + entry_frame(all[i as int]));
            lemma_entries_frame_push(all.take(i as int), all[i as int]);
            assert(all.take(i as int).push(all[i as int]) =~= all.take(i + 1));
            assert(message@ =~= start + entries_frame(all.take(i + 1)));
        }
        i += 1;
    }
    assert(all.take(peers as int) =~= all);
    write_u32(event.tick, message);
    proof {
        assert(message@ =~= before + server_frame(event@));
        lemma_server_message_reads_back(*event);
    }
    Ok(())
}

/// Reads one command from the front of `bytes`.
fn read_command<'a>(bytes: &'a [u8]) -> (r: Result<(Command, &'a [u8]), WireError>)
    ensures
        match r {
            Ok((command, rest)) => parse_command(bytes@) == Ok::<(CommandView, Seq<u8>), WireError>(
                (command@, rest@),
            ),
            Err(e) => parse_command(bytes@) == Err::<(CommandView, Seq<u8>), WireError>(e),
        },
{
    let (type_id, after_kind) = match read_u16(bytes) {
        Ok(read) => read,
        Err(e) => {
            return Err(e);
        },
    };
    let (len, after_len) = match read_u64(after_kind) {
        Ok(read) => read,
        Err(e) => {
            return Err(e);
        },
    };
    if len > after_len.len() as u64 {
        return Err(WireError::UnexpectedEnd);
    }
    let (payload, rest) = after_len.split_at(len as usize);
    assert(payload@ =~= after_len@.take(len as int));
    assert(rest@ =~= after_len@.skip(len as int));
    Ok((Command { type_id, payload: slice_to_vec(payload) }, rest))
}

/// What a read of further commands gives once `done` have been read.
pub open spec fn after_commands(
    done: Seq<CommandView>,
    further: Result<(Seq<CommandView>, Seq<u8>), WireError>,
) -> Result<(Seq<CommandView>, Seq<u8>), WireError> {
    match further {
        Ok((others, left)) => Ok((done + others, left)),
        Err(e) => Err(e),
    }
}

/// Reads `count` commands from the front of `bytes`.
fn read_commands<'a>(bytes: &'a [u8], count: u16) -> (r: Result<(Vec<Command>, &'a [u8]), WireError>)
    ensures
        match r {
            Ok((commands, rest)) => parse_commands(bytes@, count as nat) == Ok::<
                (Seq<CommandView>, Seq<u8>),
                WireError,
            >((commands.deep_view(), rest@)),
            Err(e) => parse_commands(bytes@, count as nat) == Err::<
                (Seq<CommandView>, Seq<u8>),
                WireError,
            >(e),
        },
{
    let mut commands: Vec<Command> = Vec::new();
    let mut rest: &[u8] = bytes;
    let mut i: u16 = 0;
    assert(commands.deep_view() =~= Seq::<CommandView>::empty());
    assert(after_commands(commands.deep_view(), parse_commands(rest@, count as nat))
        == parse_commands(bytes@, count as nat)) by {
        let whole = parse_commands(bytes@, count as nat);
        if whole is Ok {
            assert(Seq::<CommandView>::empty() + whole->Ok_0.0 =~= whole->Ok_0.0);
        }
    }
    while i < count
        invariant
            i <= count,
            parse_commands(bytes@, count as nat) == after_commands(
                commands.deep_view(),
                parse_commands(rest@, (count - i) as nat),
            ),
        decreases count - i,
    {
        let ghost done = commands.deep_view();
        let ghost here = rest@;
        let (command, left) = match read_command(rest) {
            Ok(read) => read,
            Err(e) => {
                return Err(e);
            },
        };
        commands.push(command);
        rest = left;
        proof {
            let further = parse_commands(left@, (count - i - 1) as nat);
            assert(commands.deep_view() =~= done.push(command@));
            if further is Ok {
                assert(done + (seq![command@] + further->Ok_0.0) =~= done.push(command@)
                    + further->Ok_0.0);
            }
        }
        i += 1;
    }
    proof {
        assert(commands.deep_view() + Seq::<CommandView>::empty() =~= commands.deep_view());
    }
    Ok((commands, rest))
}

/// Reads a peer's message from `message`. Bytes after the message are not
/// looked at.
pub fn deserialize_client_send_commands(message: &[u8]) -> (r: Result<
    ClientSendCommands,
    WireError,
>)
    ensures
        match r {
            Ok(event) => parse_client(message@) == Ok::<ClientSendCommandsView, WireError>(event@),
            Err(e) => parse_client(message@) == Err::<ClientSendCommandsView, WireError>(e),
        },
{
    let (count, after_count) = match read_u16(message) {
        Ok(read) => read,
        Err(e) => {
            return Err(e);
        },
    };
    let (commands, after) = match read_commands(after_count, count) {
        Ok(read) => read,
        Err(e) => {
            return Err(e);
        },
    };
    let (issued_tick, _) = match read_u32(after) {
        Ok(read) => read,
        Err(e) => {
            return Err(e);
        },
    };
    Ok(ClientSendCommands { issued_tick, commands })
}

/// Reads a broadcast from `message`. The entries are put into the bundle in
/// the order in which they arrive, a later entry of a peer replacing an
/// earlier one, so the bundle is well-formed however the frame was ordered.
/// Bytes after the broadcast are not looked at.
pub fn deserialize_server_send_commands(message: &[u8]) -> (r: Result<
    ServerSendCommands,
    WireError,
>)
    ensures
        match r {
            Ok(event) => parse_server(message@) == Ok::<ServerSendCommandsView, WireError>(event@)
                && event.commands.wf(),
            Err(e) => parse_server(message@) == Err::<ServerSendCommandsView, WireError>(e),
        },
{
    let (peers, after_count) = match read_u8(message) {
        Ok(read) => read,
        Err(e) => {
            return Err(e);
        },
    };
    let mut bundle = LockstepClientCommands::new();
    let mut rest: &[u8] = after_count;
    let mut i: u8 = 0;
    while i < peers
        invariant
            i <= peers,
            bundle.wf(),
            take_u8(message@) == Ok::<(u8, Seq<u8>), WireError>((peers, after_count@)),
            parse_entries(after_count@, peers as nat, BundleView::empty()) == parse_entries(
                rest@,
                (peers - i) as nat,
                bundle@,
            ),
        decreases peers - i,
    {
        let (peer, after_peer) = match read_u64(rest) {
            Ok(read) => read,
            Err(e) => {
                return Err(e);
            },
        };
        let (count, after_len) = match read_u16(after_peer) {
            Ok(read) => read,
            Err(e) => {
                return Err(e);
            },
        };
        let (commands, left) = match read_commands(after_len, count) {
            Ok(read) => read,
            Err(e) => {
                return Err(e);
            },
        };
        bundle.insert(peer, commands);
        rest = left;
        i += 1;
    }
    let (tick, _) = match read_u32(rest) {
        Ok(read) => read,
        Err(e) => {
            return Err(e);
        },
    };
    Ok(ServerSendCommands { tick, commands: bundle })
}

} // verus!
