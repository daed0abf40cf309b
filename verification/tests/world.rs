use oh_no::{Behavior, Computer, Message, MessageData, World};

/// Three path-propagating computers in a chain exchange one message per
/// edge per tick; after two ticks each incoming queue holds exactly what
/// the last deliver phase brought.
#[test]
fn test_world() {
    let mut world = World::default();

    let computer_a = world.add_computer(Computer::new(Behavior::PathPropagation));
    let computer_b = world.add_computer(Computer::new(Behavior::PathPropagation));
    let computer_c = world.add_computer(Computer::new(Behavior::PathPropagation));

    world.connect(computer_a, computer_b);
    world.connect(computer_b, computer_c);

    world.update();
    world.update();

    let computer_a = world.computer(computer_a).unwrap();
    let computer_b = world.computer(computer_b).unwrap();
    let computer_c = world.computer(computer_c).unwrap();

    assert_eq!(computer_a.incoming().len(), 1);
    assert_eq!(computer_b.incoming().len(), 2);
    assert_eq!(computer_c.incoming().len(), 1);
}

/// The run phase alone fills outgoing queues (one message per adjacent
/// edge) and leaves every incoming queue empty until delivery.
#[test]
fn run_phase_fills_outgoing() {
    let mut world = World::default();
    let pc1 = world.add_computer(Computer::new(Behavior::PathPropagation));
    let pc2 = world.add_computer(Computer::new(Behavior::PathPropagation));
    world.connect(pc1, pc2);

    let failed = world.run_computers();
    assert!(failed.is_empty());

    assert_eq!(world.computer(pc1).unwrap().outgoing().len(), 1);
    assert_eq!(world.computer(pc1).unwrap().incoming().len(), 0);
    assert_eq!(world.computer(pc2).unwrap().outgoing().len(), 1);
    assert_eq!(world.computer(pc2).unwrap().incoming().len(), 0);

    world.deliver_messages(true);

    assert_eq!(world.computer(pc1).unwrap().incoming().len(), 1);
    assert_eq!(world.computer(pc1).unwrap().outgoing().len(), 0);
    assert_eq!(world.computer(pc2).unwrap().incoming().len(), 1);
    assert_eq!(world.computer(pc2).unwrap().outgoing().len(), 0);
}

/// After one tick across a single edge, each side holds exactly the
/// message the other produced on that edge: same edge field, the sender's
/// identity in `from`, and the sender's one-hop path in the payload.
#[test]
fn round_trip_edge_exact() {
    let mut world = World::default();
    let pc1 = world.add_computer(Computer::new(Behavior::PathPropagation));
    let pc2 = world.add_computer(Computer::new(Behavior::PathPropagation));
    let edge = world.connect(pc1, pc2);

    world.update();

    let received_1 = world.computer(pc1).unwrap().incoming();
    assert_eq!(received_1.len(), 1);
    assert_eq!(received_1[0].edge, edge);
    assert_eq!(received_1[0].from, pc2);
    assert_eq!(received_1[0].port, 0);
    assert_eq!(
        received_1[0].data,
        MessageData::BGPMessage { path: vec![pc2] }
    );

    let received_2 = world.computer(pc2).unwrap().incoming();
    assert_eq!(received_2.len(), 1);
    assert_eq!(received_2[0].edge, edge);
    assert_eq!(received_2[0].from, pc1);
    assert_eq!(
        received_2[0].data,
        MessageData::BGPMessage { path: vec![pc1] }
    );
}

/// Fan-in counting: a hub joined to three leaves receives one message per
/// incident edge in one tick.
#[test]
fn star_fan_in_counts() {
    let mut world = World::default();
    let hub = world.add_computer(Computer::new(Behavior::PathPropagation));
    let leaf_1 = world.add_computer(Computer::new(Behavior::PathPropagation));
    let leaf_2 = world.add_computer(Computer::new(Behavior::PathPropagation));
    let leaf_3 = world.add_computer(Computer::new(Behavior::PathPropagation));
    world.connect(leaf_1, hub);
    world.connect(leaf_2, hub);
    world.connect(leaf_3, hub);

    world.update();

    assert_eq!(world.computer(hub).unwrap().incoming().len(), 3);
    assert_eq!(world.computer(leaf_1).unwrap().incoming().len(), 1);
    assert_eq!(world.computer(leaf_2).unwrap().incoming().len(), 1);
    assert_eq!(world.computer(leaf_3).unwrap().incoming().len(), 1);
}

/// Resetting incoming queues empties them and is idempotent.
#[test]
fn reset_incoming_twice() {
    let mut world = World::default();
    let pc1 = world.add_computer(Computer::new(Behavior::PathPropagation));
    let pc2 = world.add_computer(Computer::new(Behavior::PathPropagation));
    world.connect(pc1, pc2);
    world.update();
    assert_eq!(world.computer(pc1).unwrap().incoming().len(), 1);

    world.reset_incoming();
    assert_eq!(world.computer(pc1).unwrap().incoming().len(), 0);
    assert_eq!(world.computer(pc2).unwrap().incoming().len(), 0);

    world.reset_incoming();
    assert_eq!(world.computer(pc1).unwrap().incoming().len(), 0);
    assert_eq!(world.computer(pc2).unwrap().incoming().len(), 0);
}

/// A message addressed to an edge removed between the run and deliver
/// phases is dropped silently: it lands in no incoming queue.
#[test]
fn dangling_edge_drops_messages() {
    let mut world = World::default();
    let pc1 = world.add_computer(Computer::new(Behavior::PathPropagation));
    let pc2 = world.add_computer(Computer::new(Behavior::PathPropagation));
    let edge = world.connect(pc1, pc2);

    world.run_computers();
    assert_eq!(world.computer(pc1).unwrap().outgoing().len(), 1);
    world.disconnect(edge);
    world.deliver_messages(true);

    assert_eq!(world.computer(pc1).unwrap().incoming().len(), 0);
    assert_eq!(world.computer(pc2).unwrap().incoming().len(), 0);
    assert_eq!(world.computer(pc1).unwrap().outgoing().len(), 0);
    assert_eq!(world.computer(pc2).unwrap().outgoing().len(), 0);
}

/// The star-fan-in scenario: three leaves on one hub, the hub joined to
/// two further leaves, and one extra leaf-to-leaf edge. Exact expected
/// counts follow from the constructed edge set.
#[test]
fn star_fan_in_scenario() {
    let mut world = World::default();

    // Network structure (node densities): 3 -> 1 -> 2
    let pc_a1 = world.add_computer(Computer::new(Behavior::PathPropagation));
    let pc_a2 = world.add_computer(Computer::new(Behavior::PathPropagation));
    let pc_a3 = world.add_computer(Computer::new(Behavior::PathPropagation));
    let pc_b1 = world.add_computer(Computer::new(Behavior::PathPropagation));
    let pc_c1 = world.add_computer(Computer::new(Behavior::PathPropagation));
    let pc_c2 = world.add_computer(Computer::new(Behavior::PathPropagation));

    world.connect(pc_a1, pc_a2);

    world.connect(pc_a1, pc_b1);
    world.connect(pc_a2, pc_b1);
    world.connect(pc_a3, pc_b1);

    world.connect(pc_b1, pc_c1);
    world.connect(pc_b1, pc_c2);

    world.update();

    // A1 gets a message from A2 and B1; A2 from A1 and B1; A3 from B1.
    assert_eq!(world.computer(pc_a1).unwrap().incoming().len(), 2);
    assert_eq!(world.computer(pc_a2).unwrap().incoming().len(), 2);
    assert_eq!(world.computer(pc_a3).unwrap().incoming().len(), 1);

    // B1 gets a message from A1, A2, A3, C1, and C2: one per incident edge.
    assert_eq!(world.computer(pc_b1).unwrap().incoming().len(), 5);

    // C1 and C2 each get a message from B1.
    assert_eq!(world.computer(pc_c1).unwrap().incoming().len(), 1);
    assert_eq!(world.computer(pc_c2).unwrap().incoming().len(), 1);
}

/// A counting computer accumulates the number of messages it received on
/// each tick it runs; messages delivered by the last tick are counted on
/// the next one.
#[test]
fn counter_accumulates() {
    let mut world = World::default();
    let pc1 = world.add_computer(Computer::new(Behavior::PathPropagation));
    let pc2 = world.add_computer(Computer::new(Behavior::Counter { count: 0 }));
    world.connect(pc1, pc2);

    world.update();
    world.update();
    world.update();

    match world.computer(pc2).unwrap().behavior() {
        Behavior::Counter { count } => assert_eq!(*count, 2),
        _ => panic!("expected a counter"),
    }
}

/// A counter at the ceiling stays there instead of wrapping.
#[test]
fn counter_saturates() {
    let mut world = World::default();
    let pc1 = world.add_computer(Computer::new(Behavior::PathPropagation));
    let pc2 = world.add_computer(Computer::new(Behavior::Counter { count: usize::MAX }));
    world.connect(pc1, pc2);

    world.update();
    world.update();

    match world.computer(pc2).unwrap().behavior() {
        Behavior::Counter { count } => assert_eq!(*count, usize::MAX),
        _ => panic!("expected a counter"),
    }
}

/// Parallel edges between the same pair are distinct connections: each
/// carries its own message, and removing one leaves the other.
#[test]
fn parallel_edges_are_distinct() {
    let mut world = World::default();
    let pc1 = world.add_computer(Computer::new(Behavior::PathPropagation));
    let pc2 = world.add_computer(Computer::new(Behavior::PathPropagation));
    let first = world.connect(pc1, pc2);
    let second = world.connect(pc1, pc2);
    assert_ne!(first, second);

    world.update();
    assert_eq!(world.computer(pc1).unwrap().incoming().len(), 2);
    assert_eq!(world.computer(pc2).unwrap().incoming().len(), 2);

    world.disconnect(first);
    assert!(world.is_connected(pc1, pc2));
    world.update();
    assert_eq!(world.computer(pc2).unwrap().incoming().len(), 1);
    assert_eq!(world.computer(pc2).unwrap().incoming()[0].edge, second);

    world.disconnect(second);
    assert!(!world.is_connected(pc1, pc2));
}

/// The router returns the far endpoint for a live edge and its sender,
/// and nothing for a removed edge or a sender the edge does not touch.
#[test]
fn resolve_non_sender_endpoint() {
    let mut world = World::default();
    let pc1 = world.add_computer(Computer::new(Behavior::PathPropagation));
    let pc2 = world.add_computer(Computer::new(Behavior::PathPropagation));
    let pc3 = world.add_computer(Computer::new(Behavior::PathPropagation));
    let edge = world.connect(pc1, pc2);

    assert_eq!(world.resolve(edge, pc1), Some(pc2));
    assert_eq!(world.resolve(edge, pc2), Some(pc1));
    // A stale sender that is not an endpoint never gets a default side.
    assert_eq!(world.resolve(edge, pc3), None);
    // An unknown edge resolves to nothing.
    assert_eq!(world.resolve(edge + 1, pc1), None);

    world.disconnect(edge);
    assert_eq!(world.resolve(edge, pc1), None);
}

/// A message whose sender is not an endpoint of its edge is dropped by
/// the router, never delivered to a default side.
#[test]
fn forged_sender_is_dropped() {
    let mut world = World::default();
    let pc1 = world.add_computer(Computer::new(Behavior::PathPropagation));
    let pc2 = world.add_computer(Computer::new(Behavior::PathPropagation));
    let pc3 = world.add_computer(Computer::new(Behavior::PathPropagation));
    let edge = world.connect(pc1, pc2);

    world.send_messages(vec![
        Message { port: 0, from: pc3, edge, data: MessageData::Blank },
        Message { port: 0, from: pc1, edge, data: MessageData::Blank },
    ]);

    assert_eq!(world.computer(pc1).unwrap().incoming().len(), 0);
    assert_eq!(world.computer(pc2).unwrap().incoming().len(), 1);
    assert_eq!(world.computer(pc3).unwrap().incoming().len(), 0);
}

/// Removing a computer removes every edge incident to it, and its
/// identity is never reassigned.
#[test]
fn remove_computer_cascades() {
    let mut world = World::default();
    let pc1 = world.add_computer(Computer::new(Behavior::PathPropagation));
    let pc2 = world.add_computer(Computer::new(Behavior::PathPropagation));
    let pc3 = world.add_computer(Computer::new(Behavior::PathPropagation));
    world.connect(pc1, pc2);
    world.connect(pc2, pc3);

    let removed = world.remove_computer(pc2).unwrap();
    assert_eq!(removed.id(), pc2);
    assert!(world.computer(pc2).is_none());
    assert!(world.remove_computer(pc2).is_none());
    assert!(!world.is_connected(pc1, pc2));
    assert!(!world.is_connected(pc2, pc3));

    let pc4 = world.add_computer(Computer::new(Behavior::PathPropagation));
    assert_ne!(pc4, pc2);

    world.update();
    assert_eq!(world.computer(pc1).unwrap().incoming().len(), 0);
    assert_eq!(world.computer(pc3).unwrap().incoming().len(), 0);
}

/// `edges_of` lists a computer's incident edges in ascending order.
#[test]
fn edges_of_lists_incident_edges() {
    let mut world = World::default();
    let pc1 = world.add_computer(Computer::new(Behavior::PathPropagation));
    let pc2 = world.add_computer(Computer::new(Behavior::PathPropagation));
    let pc3 = world.add_computer(Computer::new(Behavior::PathPropagation));
    let e1 = world.connect(pc1, pc2);
    let e2 = world.connect(pc2, pc3);
    let e3 = world.connect(pc1, pc2);

    assert_eq!(world.edges_of(pc1), vec![e1, e3]);
    assert_eq!(world.edges_of(pc2), vec![e1, e2, e3]);
    assert_eq!(world.edges_of(pc3), vec![e2]);

    world.disconnect(e1);
    assert_eq!(world.edges_of(pc2), vec![e2, e3]);
}
