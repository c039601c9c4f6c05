use replicon_lockstep::commands::{
    Command, LockstepClientCommands, LockstepGameCommandBuffer, LockstepGameCommandsReceived,
};
use replicon_lockstep::prelude::{SimulationId, SimulationIdCounter, SimulationIdEntityMap};
use replicon_lockstep::simulation::{cache_ids, setup_simulation, SimulationTick};

#[test]
fn ids_are_drawn_from_one_upwards() {
    let mut counter = SimulationIdCounter::new();
    assert_eq!(counter.peek(), SimulationId(1));
    assert_eq!(SimulationId::new(&mut counter), SimulationId(1));
    assert_eq!(SimulationId::new(&mut counter), SimulationId(2));
    assert_eq!(SimulationId::new(&mut counter), SimulationId(3));
    assert_eq!(counter.peek(), SimulationId(4));
    counter.reset();
    assert_eq!(SimulationId::new(&mut counter), SimulationId(1));
    assert_eq!(SimulationIdCounter::default(), SimulationIdCounter::new());
}

#[test]
fn peers_that_draw_alike_hold_the_same_ids() {
    let mut a = SimulationIdCounter::new();
    let mut b = SimulationIdCounter::new();
    for _ in 0..1000 {
        assert_eq!(SimulationId::new(&mut a), SimulationId::new(&mut b));
    }
    assert_eq!(a, b);
    assert_eq!(a.peek(), SimulationId(1001));
}

#[test]
fn the_placeholder_is_zero_and_never_drawn_first() {
    assert_eq!(SimulationId::placeholder(), SimulationId(0));
    assert!(SimulationId::placeholder().is_placeholder());
    assert!(!SimulationId(1).is_placeholder());
    let mut counter = SimulationIdCounter::new();
    assert!(!SimulationId::new(&mut counter).is_placeholder());
}

#[test]
fn entities_are_found_by_id() {
    let mut map = SimulationIdEntityMap::new();
    assert_eq!(map.len(), 0);
    assert_eq!(map.get(SimulationId(1)), None);
    map.insert(SimulationId(1), 700);
    map.insert(SimulationId(2), 800);
    map.insert(SimulationId(1), 900);
    assert_eq!(map.len(), 2);
    assert_eq!(map.get(SimulationId(1)), Some(900));
    assert_eq!(map.get(SimulationId(2)), Some(800));
    cache_ids(&vec![(5, SimulationId(3)), (6, SimulationId(2)), (7, SimulationId(3))], &mut map);
    assert_eq!(map.len(), 3);
    assert_eq!(map.get(SimulationId(2)), Some(6));
    assert_eq!(map.get(SimulationId(3)), Some(7));
    map.clear();
    assert_eq!(map.len(), 0);
    assert_eq!(SimulationIdEntityMap::default().len(), 0);
}

#[test]
fn a_new_run_starts_from_nothing() {
    let mut tick = SimulationTick(77);
    let mut history = LockstepGameCommandBuffer::new();
    history.record(3, 1, vec![Command::new(1, vec![])]);
    let mut received = LockstepGameCommandsReceived::new();
    received.record(9, 1, vec![]);
    let mut map = SimulationIdEntityMap::new();
    map.insert(SimulationId(4), 4);
    let mut counter = SimulationIdCounter::new();
    SimulationId::new(&mut counter);
    SimulationId::new(&mut counter);
    setup_simulation(&mut tick, &mut history, &mut received, &mut map, &mut counter);
    assert_eq!(tick, SimulationTick(0));
    assert_eq!(history.len(), 0);
    assert_eq!(received.len(), 0);
    assert_eq!(map.len(), 0);
    assert_eq!(SimulationId::new(&mut counter), SimulationId(1));
}

#[test]
fn ids_are_drawn_in_the_order_of_execution() {
    let spawn = |n: u8| Command::new(16, vec![n]);
    let other = |n: u8| Command::new(17, vec![n]);
    let mut bundle = LockstepClientCommands::new();
    bundle.insert(9, vec![spawn(1), other(2), spawn(3)]);
    bundle.insert(2, vec![other(4), spawn(5)]);
    bundle.insert(5, vec![]);
    let mut counter = SimulationIdCounter::new();
    // peer 2 comes first and draws one id, peer 9 then draws two
    assert_eq!(
        counter.draw_for(&bundle, 16),
        vec![SimulationId(1), SimulationId(2), SimulationId(3)]
    );
    assert_eq!(counter.peek(), SimulationId(4));
    assert_eq!(counter.draw_for(&bundle, 17), vec![SimulationId(4), SimulationId(5)]);
    assert_eq!(counter.draw_for(&bundle, 18), vec![]);
    assert_eq!(counter.draw_for(&LockstepClientCommands::new(), 16), vec![]);
    assert_eq!(counter.peek(), SimulationId(6));

    // another peer, the same bundle made in another order, the same ids
    let mut same = LockstepClientCommands::new();
    same.insert(5, vec![]);
    same.insert(2, vec![other(4), spawn(5)]);
    same.insert(9, vec![spawn(1), other(2), spawn(3)]);
    let mut elsewhere = SimulationIdCounter::new();
    assert_eq!(
        elsewhere.draw_for(&same, 16),
        vec![SimulationId(1), SimulationId(2), SimulationId(3)]
    );
}
