use bip::dht::message::announce_peer::{AnnouncePeerRequest, ResponsePort};
use bip::dht::routing::node::{Node, NodeAddr};
use bip::dht::routing::table::RoutingTable;
use bip::dht::transaction::AIDGenerator;
use bip::dht::worker::handler::{complete_bootstrap, handle_find_node_response_at, PostBootstrapAction};
use bip::dht::worker::lookup::{LookupStatus, TableLookup};

const NOW: i64 = 1_000_000_000;

fn node_id(last: u8) -> [u8; 20] {
    let mut id = [0u8; 20];
    id[0] = 0x80;
    id[19] = last;
    id
}

fn table_with(n: u8) -> RoutingTable {
    let mut table = RoutingTable::new([0u8; 20]);
    for i in 0..n {
        table.add_node_at(Node::as_good_at(node_id(i), NodeAddr::V4([10, 0, 0, i], 6881), NOW), NOW);
    }
    table
}

#[test]
fn lookup_on_empty_table_completes() {
    let mut table = RoutingTable::new([0u8; 20]);
    let mut aids = AIDGenerator::new();
    let (lookup, step) = TableLookup::new_at([0u8; 20], [0x80u8; 20], aids.generate(), false, &mut table, NOW);
    assert!(step.requests.is_empty());
    assert!(matches!(step.status, LookupStatus::Completed));
    assert!(matches!(lookup.current_lookup_status(), LookupStatus::Completed));
}

#[test]
fn lookup_asks_closest_nodes_first() {
    let mut table = table_with(6);
    let mut aids = AIDGenerator::new();
    let target = node_id(0);
    let (lookup, step) = TableLookup::new_at([0u8; 20], target, aids.generate(), false, &mut table, NOW);
    assert!(matches!(step.status, LookupStatus::Searching));
    assert_eq!(step.requests.len(), 4);
    // Closest first: the distances to the target grow with the last byte.
    let asked: Vec<u8> = step.requests.iter().map(|r| r.contact.0[19]).collect();
    assert_eq!(asked, vec![0, 1, 2, 3]);
    assert_eq!(lookup.info_hash(), target);
}

#[test]
fn unknown_timeout_changes_nothing() {
    let mut table = table_with(2);
    let mut aids = AIDGenerator::new();
    let (mut lookup, _) = TableLookup::new_at([0u8; 20], node_id(0), aids.generate(), false, &mut table, NOW);
    let mut other = aids.generate();
    let stranger = other.generate();
    let step = lookup.recv_timeout_at(&stranger, &mut table, NOW);
    assert!(step.requests.is_empty());
    assert!(step.endgame.is_none());
    assert!(matches!(step.status, LookupStatus::Searching));
}

#[test]
fn last_timeout_starts_the_endgame() {
    let mut table = table_with(2);
    let mut aids = AIDGenerator::new();
    let (mut lookup, step) = TableLookup::new_at([0u8; 20], node_id(0), aids.generate(), false, &mut table, NOW);
    assert_eq!(step.requests.len(), 2);
    let first = lookup.recv_timeout_at(&step.requests[0].trans_id, &mut table, NOW);
    assert!(first.endgame.is_none());
    let second = lookup.recv_timeout_at(&step.requests[1].trans_id, &mut table, NOW);
    // Both nodes were asked already, so the endgame asks nobody new.
    assert!(second.endgame.is_some());
    assert!(second.requests.is_empty());
    assert!(matches!(second.status, LookupStatus::Searching));
}

#[test]
fn closer_nodes_are_asked_next() {
    let mut table = table_with(1);
    let mut aids = AIDGenerator::new();
    let target = [0x80u8; 20];
    let (mut lookup, step) = TableLookup::new_at([0u8; 20], target, aids.generate(), false, &mut table, NOW);
    let asked = step.requests[0];
    // The answer gives a node much closer to the target.
    let closer = ([0x80u8; 20], NodeAddr::V4([10, 0, 9, 9], 6881));
    let next = lookup.recv_response_at(asked.contact, &asked.trans_id, Some(vec![closer]), None, None, &mut table, NOW);
    assert_eq!(next.requests.len(), 1);
    assert_eq!(next.requests[0].contact, closer);
    assert!(matches!(next.status, LookupStatus::Searching));
}

#[test]
fn values_are_reported() {
    let mut table = table_with(1);
    let mut aids = AIDGenerator::new();
    let (mut lookup, step) = TableLookup::new_at([0u8; 20], node_id(0), aids.generate(), false, &mut table, NOW);
    let asked = step.requests[0];
    let peer = NodeAddr::V4([1, 2, 3, 4], 5000);
    let next = lookup.recv_response_at(asked.contact, &asked.trans_id, None, Some(vec![peer]), None, &mut table, NOW);
    match next.status {
        LookupStatus::Values(v) => assert_eq!(v, vec![peer]),
        other => panic!("unexpected {:?}", other),
    }
    // Nothing outstanding and a node gave peers alone: the endgame asks nobody.
    assert!(next.endgame.is_some());
    assert!(next.requests.is_empty());
}

#[test]
fn finished_lookup_announces_to_token_holders() {
    let mut table = table_with(1);
    let mut aids = AIDGenerator::new();
    let target = node_id(0);
    let (mut lookup, step) = TableLookup::new_at([0u8; 20], target, aids.generate(), true, &mut table, NOW);
    let asked = step.requests[0];
    lookup.recv_response_at(asked.contact, &asked.trans_id, Some(vec![]), None, Some(b"secret".to_vec()), &mut table, NOW);
    let announces = lookup.recv_finished(6889, &mut table, NOW);
    assert_eq!(announces.len(), 1);
    assert_eq!(announces[0].contact, asked.contact);
    let expected = AnnouncePeerRequest::new(
        announces[0].trans_id.as_ref(),
        &[0u8; 20],
        &target,
        b"secret",
        ResponsePort::Explicit(6889),
    )
    .unwrap()
    .encode();
    assert_eq!(announces[0].message, expected);
    assert!(matches!(lookup.current_lookup_status(), LookupStatus::Completed));
}

#[test]
fn find_node_answer_fills_the_table() {
    let mut table = RoutingTable::new([0u8; 20]);
    let nodes = vec![(node_id(1), NodeAddr::V4([10, 0, 0, 1], 6881)), (node_id(2), NodeAddr::V4([10, 0, 0, 2], 6881))];
    handle_find_node_response_at(&mut table, node_id(9), NodeAddr::V4([10, 0, 0, 9], 6881), false, &nodes, NOW);
    // The good sender takes the place of the first questionable node.
    let ids: Vec<u8> = table.closest_nodes_at(&node_id(0), NOW).iter().map(|n| n.id()[19]).collect();
    assert_eq!(ids, vec![9, 2]);

    let mut from_router = RoutingTable::new([0u8; 20]);
    handle_find_node_response_at(&mut from_router, node_id(9), NodeAddr::V4([10, 0, 0, 9], 6881), true, &nodes, NOW);
    let ids: Vec<u8> = from_router.closest_nodes_at(&node_id(0), NOW).iter().map(|n| n.id()[19]).collect();
    assert_eq!(ids, vec![1, 2]);
}

#[test]
fn completing_the_bootstrap_releases_queued_actions() {
    let mut bootstrapping = true;
    let mut queued = vec![PostBootstrapAction::Lookup([1u8; 20], true)];
    let released = complete_bootstrap(&mut bootstrapping, &mut queued);
    assert!(!bootstrapping);
    assert!(queued.is_empty());
    assert_eq!(released.len(), 1);
}

#[test]
fn endgame_asks_nodes_not_asked_yet() {
    let mut table = table_with(6);
    let mut aids = AIDGenerator::new();
    let (mut lookup, step) = TableLookup::new_at([0u8; 20], node_id(0), aids.generate(), false, &mut table, NOW);
    // Four of the six good nodes are asked first; the last timeout starts the endgame, which
    // asks the two left, closest first.
    let mut last = None;
    for request in &step.requests {
        last = Some(lookup.recv_timeout_at(&request.trans_id, &mut table, NOW));
    }
    let last = last.unwrap();
    assert!(last.endgame.is_some());
    let asked: Vec<u8> = last.requests.iter().map(|r| r.contact.0[19]).collect();
    assert_eq!(asked, vec![4, 5]);
}

#[test]
fn finished_lookup_without_announce_sends_nothing() {
    let mut table = table_with(1);
    let mut aids = AIDGenerator::new();
    let (mut lookup, step) = TableLookup::new_at([0u8; 20], node_id(0), aids.generate(), false, &mut table, NOW);
    let asked = step.requests[0];
    lookup.recv_response_at(asked.contact, &asked.trans_id, None, None, Some(b"secret".to_vec()), &mut table, NOW);
    assert!(lookup.recv_finished(6889, &mut table, NOW).is_empty());
}
