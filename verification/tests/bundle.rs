use replicon_lockstep::commands::{
    copy_bytes, copy_commands, ClientSendCommands, Command, LockstepClientCommands,
    LockstepGameCommandBuffer, LockstepGameCommandsReceived, ServerSendCommands,
};

fn cmd(kind: u16) -> Command {
    Command::new(kind, vec![kind as u8])
}

#[test]
fn peers_are_visited_in_ascending_order() {
    let mut b = LockstepClientCommands::new();
    for peer in [40u64, 2, 7, 1, 39, u64::MAX, 0] {
        assert_eq!(b.insert(peer, vec![cmd(peer as u16)]), None);
    }
    assert_eq!(b.peers(), vec![0, 1, 2, 7, 39, 40, u64::MAX]);
    assert_eq!(b.len(), 7);
    for i in 0..b.len() {
        assert_eq!(b.peer_at(i), b.peers()[i]);
        assert_eq!(b.commands_at(i), &vec![cmd(b.peer_at(i) as u16)]);
    }
}

#[test]
fn insert_replaces_and_gives_back_the_old_commands() {
    let mut b = LockstepClientCommands::new();
    assert!(b.is_empty());
    assert_eq!(b.insert(3, vec![cmd(1), cmd(2)]), None);
    assert_eq!(b.insert(1, vec![]), None);
    assert_eq!(b.insert(3, vec![cmd(9)]), Some(vec![cmd(1), cmd(2)]));
    assert_eq!(b.len(), 2);
    assert!(!b.is_empty());
    assert_eq!(b.get(3), Some(&vec![cmd(9)]));
    assert_eq!(b.get(1), Some(&vec![]));
    assert_eq!(b.get(2), None);
    assert!(b.contains_key(1));
    assert!(b.contains_key(3));
    assert!(!b.contains_key(0));
    assert!(!b.contains_key(4));
}

#[test]
fn an_empty_entry_is_an_entry() {
    let mut b = LockstepClientCommands::new();
    b.insert(5, vec![]);
    assert!(b.contains_key(5));
    assert_eq!(b.absent(&vec![5, 6]), vec![6]);
}

#[test]
fn commands_keep_the_order_of_submission() {
    let mut b = LockstepClientCommands::new();
    b.insert(1, vec![cmd(3), cmd(1), cmd(2)]);
    assert_eq!(b.get(1), Some(&vec![cmd(3), cmd(1), cmd(2)]));
}

#[test]
fn absent_lists_the_missing_in_the_order_asked() {
    let mut b = LockstepClientCommands::new();
    b.insert(2, vec![]);
    b.insert(4, vec![]);
    assert_eq!(b.absent(&vec![5, 4, 3, 2, 1]), vec![5, 3, 1]);
    assert_eq!(b.absent(&vec![2, 4]), Vec::<u64>::new());
    assert_eq!(b.absent(&vec![]), Vec::<u64>::new());
    assert_eq!(LockstepClientCommands::new().absent(&vec![1, 1]), vec![1, 1]);
}

#[test]
fn copies_are_equal_and_independent() {
    let mut b = LockstepClientCommands::default();
    b.insert(2, vec![cmd(1)]);
    let c = b.clone();
    assert_eq!(b, c);
    b.insert(3, vec![]);
    assert_eq!(c.peers(), vec![2]);
    assert_eq!(copy_bytes(&vec![1, 2, 3]), vec![1, 2, 3]);
    assert_eq!(copy_commands(&vec![cmd(1), cmd(2)]), vec![cmd(1), cmd(2)]);
    assert_eq!(cmd(4).clone(), cmd(4));
    let event = ClientSendCommands { issued_tick: 4, commands: vec![cmd(1)] };
    assert_eq!(event.clone(), event);
    let broadcast = ServerSendCommands { tick: 4, commands: c };
    assert_eq!(broadcast.clone(), broadcast);
    assert_eq!(ClientSendCommands::default(), ClientSendCommands { issued_tick: 0, commands: vec![] });
    assert_eq!(
        ServerSendCommands::default(),
        ServerSendCommands { tick: 0, commands: LockstepClientCommands::new() }
    );
}

#[test]
fn lookups_past_the_end_find_nothing() {
    let mut log = LockstepGameCommandBuffer::new();
    assert_eq!(log.len(), 0);
    assert_eq!(log.get(0), None);
    log.record(2, 7, vec![cmd(1)]);
    assert_eq!(log.len(), 3);
    assert_eq!(log.get(0), Some(&LockstepClientCommands::new()));
    assert_eq!(log.get(1), Some(&LockstepClientCommands::new()));
    assert_eq!(log.get(2).unwrap().get(7), Some(&vec![cmd(1)]));
    assert_eq!(log.get(3), None);
    assert_eq!(log.get(u32::MAX), None);
}

#[test]
fn records_fill_gaps_and_never_shrink() {
    let mut log = LockstepGameCommandsReceived::default();
    log.record(4, 1, vec![]);
    assert_eq!(log.len(), 5);
    log.record(1, 2, vec![cmd(5)]);
    assert_eq!(log.len(), 5);
    log.record(1, 1, vec![]);
    log.record(1, 2, vec![cmd(6)]);
    assert_eq!(log.get(1).unwrap().peers(), vec![1, 2]);
    assert_eq!(log.get(1).unwrap().get(2), Some(&vec![cmd(6)]));
    assert_eq!(log.get(4).unwrap().peers(), vec![1]);
    assert_eq!(log.get(5), None);
    log.clear();
    assert_eq!(log.len(), 0);
    assert_eq!(log, LockstepGameCommandsReceived::new());
}

#[test]
fn resize_cuts_or_fills_with_copies() {
    let mut filler = LockstepClientCommands::new();
    filler.insert(9, vec![cmd(9)]);
    let mut log = LockstepGameCommandBuffer::default();
    log.resize(3, filler.clone());
    assert_eq!(log.len(), 3);
    for t in 0..3 {
        assert_eq!(log.get(t), Some(&filler));
    }
    log.resize(1, LockstepClientCommands::new());
    assert_eq!(log.len(), 1);
    assert_eq!(log.get(0), Some(&filler));
    log.resize(1, LockstepClientCommands::new());
    assert_eq!(log.len(), 1);
    log.resize(0, LockstepClientCommands::new());
    assert_eq!(log.len(), 0);

    let mut received = LockstepGameCommandsReceived::new();
    received.resize(2, filler.clone());
    assert_eq!(received.len(), 2);
    assert_eq!(received.get(1), Some(&filler));
    received.resize(1, LockstepClientCommands::new());
    assert_eq!(received.len(), 1);
    assert_eq!(received.get(1), None);
}

#[test]
fn grow_and_install() {
    let mut log = LockstepGameCommandBuffer::new();
    log.grow_to(2);
    assert_eq!(log.len(), 3);
    log.grow_to(0);
    assert_eq!(log.len(), 3);
    let mut bundle = LockstepClientCommands::new();
    bundle.insert(1, vec![cmd(1)]);
    log.install(5, bundle.clone());
    assert_eq!(log.len(), 6);
    assert_eq!(log.get(5), Some(&bundle));
    assert_eq!(log.get(4), Some(&LockstepClientCommands::new()));
    log.install(1, bundle.clone());
    assert_eq!(log.len(), 6);
    assert_eq!(log.get(1), Some(&bundle));
    log.install(1, LockstepClientCommands::new());
    assert_eq!(log.get(1), Some(&LockstepClientCommands::new()));
    log.clear();
    assert_eq!(log, LockstepGameCommandBuffer::new());
}

#[test]
fn a_bundle_does_not_depend_on_the_order_of_its_making() {
    let mut a = LockstepClientCommands::new();
    a.insert(1, vec![cmd(1)]);
    a.insert(2, vec![cmd(2)]);
    a.insert(3, vec![cmd(3)]);
    let mut b = LockstepClientCommands::new();
    b.insert(3, vec![cmd(9)]);
    b.insert(2, vec![cmd(2)]);
    b.insert(3, vec![cmd(3)]);
    b.insert(1, vec![cmd(1)]);
    assert_eq!(a, b);
}

#[test]
fn entries_come_in_ascending_order_with_their_commands() {
    let mut b = LockstepClientCommands::new();
    b.insert(30, vec![cmd(3)]);
    b.insert(10, vec![]);
    b.insert(20, vec![cmd(2), cmd(1)]);
    let entries = b.entries();
    assert_eq!(entries.len(), 3);
    assert_eq!(entries[0], (10, &vec![]));
    assert_eq!(entries[1], (20, &vec![cmd(2), cmd(1)]));
    assert_eq!(entries[2], (30, &vec![cmd(3)]));
    assert!(LockstepClientCommands::new().entries().is_empty());
}
