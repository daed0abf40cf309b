use oh_no::{Behavior, Computer, External, Message, MessageData, World};

/// A scripted computer sends what the scripting boundary deposited, but
/// only along its own adjacent edges, and always under its own identity.
#[test]
fn scripted_output_is_filtered_and_stamped() {
    let mut world = World::default();
    let scripted = world.add_computer(Computer::new(Behavior::Scripted { pending: None }));
    let neighbor = world.add_computer(Computer::new(Behavior::Counter { count: 0 }));
    let other = world.add_computer(Computer::new(Behavior::Counter { count: 0 }));
    let own_edge = world.connect(scripted, neighbor);
    let foreign_edge = world.connect(neighbor, other);

    let accepted = world.supply_script_output(
        scripted,
        vec![
            Message { port: 3, from: scripted, edge: own_edge, data: MessageData::Blank },
            // Addressed to an edge the computer is not on: a no-op.
            Message { port: 3, from: scripted, edge: foreign_edge, data: MessageData::Blank },
            // A forged sender is overwritten with the computer's identity.
            Message { port: 4, from: neighbor, edge: own_edge, data: MessageData::Blank },
        ],
    );
    assert!(accepted);

    let failed = world.run_computers();
    assert!(failed.is_empty());

    let produced = world.computer(scripted).unwrap().outgoing();
    assert_eq!(produced.len(), 2);
    assert_eq!(produced[0].edge, own_edge);
    assert_eq!(produced[0].port, 3);
    assert_eq!(produced[0].from, scripted);
    assert_eq!(produced[1].edge, own_edge);
    assert_eq!(produced[1].port, 4);
    assert_eq!(produced[1].from, scripted);

    world.deliver_messages(true);
    assert_eq!(world.computer(neighbor).unwrap().incoming().len(), 2);
    assert_eq!(world.computer(other).unwrap().incoming().len(), 0);
}

/// A scripted computer whose boundary delivered nothing fails for that
/// tick only: its outgoing queue is empty, the failure is reported to the
/// caller, and the rest of the world goes on.
#[test]
fn scripted_failure_is_isolated() {
    let mut world = World::default();
    let scripted = world.add_computer(Computer::new(Behavior::Scripted { pending: None }));
    let propagating = world.add_computer(Computer::new(Behavior::PathPropagation));
    let edge = world.connect(scripted, propagating);

    let failed = world.update();
    assert_eq!(failed, vec![scripted]);
    assert_eq!(world.computer(scripted).unwrap().outgoing().len(), 0);
    // The propagating neighbor still ran and was delivered to itself.
    assert_eq!(world.computer(scripted).unwrap().incoming().len(), 1);
    assert_eq!(world.computer(propagating).unwrap().incoming().len(), 0);

    // The next tick succeeds once the boundary deposits a queue.
    world.supply_script_output(
        scripted,
        vec![Message { port: 0, from: scripted, edge, data: MessageData::Blank }],
    );
    let failed = world.update();
    assert!(failed.is_empty());
    assert_eq!(world.computer(propagating).unwrap().incoming().len(), 1);
}

/// Deposits are rejected for identities that are not live scripted
/// computers.
#[test]
fn script_deposit_needs_scripted_computer() {
    let mut world = World::default();
    let propagating = world.add_computer(Computer::new(Behavior::PathPropagation));
    assert!(!world.supply_script_output(propagating, vec![]));
    assert!(!world.supply_script_output(propagating + 1, vec![]));
}

/// Queues preloaded through the builder are delivered like any other
/// production; without draining, the sender keeps its outgoing queue.
#[test]
fn preloaded_messages_deliver() {
    let mut world = World::default();
    let sender = world.add_computer(Computer::new(Behavior::Counter { count: 0 }));
    let receiver = world.add_computer(Computer::new(Behavior::Counter { count: 0 }));
    let edge = world.connect(sender, receiver);

    let preloaded = world.add_computer(
        Computer::new(Behavior::Counter { count: 0 })
            .with_messages(vec![Message {
                port: 0,
                from: sender,
                edge,
                data: MessageData::Blank,
            }]),
    );
    assert_eq!(world.computer(preloaded).unwrap().outgoing().len(), 1);

    world.deliver_messages(false);
    assert_eq!(world.computer(receiver).unwrap().incoming().len(), 1);
    assert_eq!(world.computer(receiver).unwrap().incoming()[0].edge, edge);
    assert_eq!(world.computer(preloaded).unwrap().outgoing().len(), 1);

    world.deliver_messages(true);
    assert_eq!(world.computer(receiver).unwrap().incoming().len(), 2);
    assert_eq!(world.computer(preloaded).unwrap().outgoing().len(), 0);
}

/// Messages can be handed to the router directly; the two computers of
/// the count-on-message scenario each receive the other's preset message,
/// and the counter counts it on the next run.
#[test]
fn count_on_message_scenario() {
    let mut world = World::default();
    let pc0 = world.add_computer(Computer::new(Behavior::Counter { count: 0 }));
    let pc1 = world.add_computer(Computer::new(Behavior::Counter { count: 0 }));
    let edge = world.connect(pc0, pc1);

    world.send_messages(vec![
        Message { port: 0, from: pc0, edge, data: MessageData::Blank },
        Message { port: 0, from: pc1, edge, data: MessageData::Blank },
    ]);
    assert_eq!(world.computer(pc0).unwrap().incoming().len(), 1);
    assert_eq!(world.computer(pc1).unwrap().incoming().len(), 1);

    world.update();
    match world.computer(pc1).unwrap().behavior() {
        Behavior::Counter { count } => assert_eq!(*count, 1),
        _ => panic!("expected a counter"),
    }
}

/// Mutable access through the world reaches a computer's queues.
#[test]
fn computer_mut_reaches_queues() {
    let mut world = World::default();
    let pc0 = world.add_computer(Computer::new(Behavior::PathPropagation));
    let pc1 = world.add_computer(Computer::new(Behavior::PathPropagation));
    let edge = world.connect(pc0, pc1);

    let outgoing = world.computer_mut(pc0).unwrap().outgoing_mut();
    outgoing.push(Message { port: 9, from: pc0, edge, data: MessageData::Blank });
    assert_eq!(world.computer(pc0).unwrap().outgoing().len(), 1);
    assert!(world.computer_mut(pc0 + 2).is_none());

    world.deliver_messages(true);
    let received = world.computer(pc1).unwrap().incoming();
    assert_eq!(received.len(), 1);
    assert_eq!(received[0].port, 9);
}

/// The boundary value type is plain data.
#[test]
fn external_value_is_plain() {
    let external = External { value: 7 };
    let copy = external;
    assert_eq!(copy, External { value: 7 });
    assert_eq!(copy.value, 7);
}
