use oh_no::ConnectedTo;

fn links_of<'a>(table: &'a [(u64, ConnectedTo)], entity: u64) -> &'a ConnectedTo {
    &table.iter().find(|row| row.0 == entity).unwrap().1
}

/// Links whose far side is gone or does not link back are removed; mutual
/// links (a self-link among them) survive.
#[test]
fn remove_disjoint() {
    let e1: u64 = 1;
    let e2: u64 = 2;
    let e3: u64 = 3;

    let table = vec![
        (e1, ConnectedTo(vec![e1, e2])),
        (e2, ConnectedTo(vec![e1, e3])),
        (e3, ConnectedTo(vec![])),
    ];

    let swept = oh_no::remove_disjoint(&table);

    assert!(links_of(&swept, e1).contains(e1));
    assert!(links_of(&swept, e1).contains(e2));
    assert!(!links_of(&swept, e1).contains(e3));

    assert!(links_of(&swept, e2).contains(e1));
    assert!(!links_of(&swept, e2).contains(e2));
    assert!(!links_of(&swept, e2).contains(e3));

    assert!(!links_of(&swept, e3).contains(e1));
    assert!(!links_of(&swept, e3).contains(e2));
    assert!(!links_of(&swept, e3).contains(e3));
}

/// A link to an entity with no row at all is dropped too.
#[test]
fn remove_disjoint_drops_missing_rows() {
    let table = vec![(7u64, ConnectedTo(vec![8, 7, 9])), (8u64, ConnectedTo(vec![7]))];
    let swept = oh_no::remove_disjoint(&table);

    assert_eq!(swept.len(), 2);
    assert_eq!(swept[0].0, 7);
    // 8 links back to 7, the self-link is mutual by itself, and 9 has no
    // row at all, so only the link to 9 goes.
    assert_eq!(swept[0].1, ConnectedTo(vec![8, 7]));
    assert_eq!(swept[1].1, ConnectedTo(vec![7]));
}

/// The sweep keeps rows, their order, and the order of surviving links.
#[test]
fn remove_disjoint_keeps_order() {
    let table = vec![
        (1u64, ConnectedTo(vec![3, 9, 2])),
        (2u64, ConnectedTo(vec![1])),
        (3u64, ConnectedTo(vec![1])),
    ];
    let swept = oh_no::remove_disjoint(&table);

    let ids: Vec<u64> = swept.iter().map(|row| row.0).collect();
    assert_eq!(ids, vec![1, 2, 3]);
    assert_eq!(swept[0].1, ConnectedTo(vec![3, 2]));
}
