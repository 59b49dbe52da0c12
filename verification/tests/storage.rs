use bip::dht::routing::node::{NodeAddr, NodeId};
use bip::dht::storage::{AnnounceStorage, EXPIRATION_TIME_MILLIS, MAX_ITEMS_STORED};

fn dummy_socket_addr_v4() -> NodeAddr {
    NodeAddr::V4([127, 0, 0, 1], 0)
}

fn dummy_block_socket_addrs(num_addrs: u16) -> Vec<NodeAddr> {
    (0..num_addrs).map(|port| NodeAddr::V4([127, 0, 0, 1], port)).collect()
}

fn now() -> i64 {
    std::time::SystemTime::now().duration_since(std::time::UNIX_EPOCH).unwrap().as_millis() as i64
}

#[test]
fn positive_add_and_retrieve_contact() {
    let mut announce_store = AnnounceStorage::new();
    let info_hash: NodeId = [0u8; 20];
    let sock_addr = dummy_socket_addr_v4();

    assert!(announce_store.add_item(info_hash, sock_addr));

    let items = announce_store.find_items(&info_hash);
    assert_eq!(items.len(), 1);

    assert_eq!(items[0], sock_addr);
}

#[test]
fn positive_add_and_retrieve_contacts() {
    let mut announce_store = AnnounceStorage::new();
    let info_hash: NodeId = [0u8; 20];
    let sock_addrs = dummy_block_socket_addrs(MAX_ITEMS_STORED as u16);

    for sock_addr in sock_addrs.iter() {
        assert!(announce_store.add_item(info_hash, *sock_addr));
    }

    let items = announce_store.find_items(&info_hash);
    assert_eq!(items.len(), MAX_ITEMS_STORED);

    for item in items.iter() {
        assert!(sock_addrs.iter().any(|s| s == item));
    }
}

#[test]
fn positive_renew_contacts() {
    let mut announce_store = AnnounceStorage::new();
    let info_hash: NodeId = [0u8; 20];
    let sock_addrs = dummy_block_socket_addrs((MAX_ITEMS_STORED + 1) as u16);

    for sock_addr in sock_addrs.iter().take(MAX_ITEMS_STORED) {
        assert!(announce_store.add_item(info_hash, *sock_addr));
    }

    let other_info_hash: NodeId = [1u8; 20];

    assert!(!announce_store.add_item(other_info_hash, sock_addrs[sock_addrs.len() - 1]));
    let times_invoked = announce_store.find_items(&other_info_hash).len();
    assert_eq!(times_invoked, 0);

    for sock_addr in sock_addrs.iter().take(MAX_ITEMS_STORED) {
        assert!(announce_store.add_item(info_hash, *sock_addr));
    }
}

#[test]
fn positive_full_storage_expire_one_infohash() {
    let mut announce_store = AnnounceStorage::new();
    let info_hash: NodeId = [0u8; 20];
    let sock_addrs = dummy_block_socket_addrs((MAX_ITEMS_STORED + 1) as u16);

    for sock_addr in sock_addrs.iter().take(MAX_ITEMS_STORED) {
        assert!(announce_store.add_item(info_hash, *sock_addr));
    }

    let other_info_hash: NodeId = [1u8; 20];

    assert!(!announce_store.add_item(other_info_hash, sock_addrs[sock_addrs.len() - 1]));
    let mut times_invoked = announce_store.find_items(&other_info_hash).len();
    assert_eq!(times_invoked, 0);

    let mock_current_time = now() + EXPIRATION_TIME_MILLIS;
    assert!(announce_store.add(other_info_hash, sock_addrs[sock_addrs.len() - 1], mock_current_time));
    times_invoked += announce_store.find_items(&other_info_hash).len();
    assert_eq!(times_invoked, 1);
}

#[test]
fn positive_full_storage_expire_two_infohash() {
    let mut announce_store = AnnounceStorage::new();
    let info_hash_one: NodeId = [0u8; 20];
    let info_hash_two: NodeId = [1u8; 20];
    let sock_addrs = dummy_block_socket_addrs((MAX_ITEMS_STORED + 1) as u16);

    let num_contacts_first = MAX_ITEMS_STORED / 2;
    for sock_addr in sock_addrs.iter().take(num_contacts_first) {
        assert!(announce_store.add_item(info_hash_one, *sock_addr));
    }

    let num_contacts_second = MAX_ITEMS_STORED - num_contacts_first;
    for sock_addr in sock_addrs.iter().skip(num_contacts_first).take(num_contacts_second) {
        assert!(announce_store.add_item(info_hash_two, *sock_addr));
    }

    let info_hash_three: NodeId = [2u8; 20];
    assert!(!announce_store.add_item(info_hash_three, sock_addrs[sock_addrs.len() - 1]));
    let mut times_invoked = announce_store.find_items(&info_hash_three).len();
    assert_eq!(times_invoked, 0);

    let mock_current_time = now() + EXPIRATION_TIME_MILLIS;
    assert!(announce_store.add(info_hash_three, sock_addrs[sock_addrs.len() - 1], mock_current_time));
    times_invoked += announce_store.find_items(&info_hash_three).len();
    assert_eq!(times_invoked, 1);
}

#[test]
fn expired_contacts_are_dropped_and_kept_ones_stay() {
    let mut store = AnnounceStorage::new();
    let h: NodeId = [7u8; 20];
    let a = NodeAddr::V4([10, 0, 0, 1], 1);
    let b = NodeAddr::V4([10, 0, 0, 2], 2);
    assert!(store.add_with(h, a, 0, 0));
    assert!(store.add_with(h, b, 1000, 1000));
    assert_eq!(store.find(&h, 2000), vec![a, b]);
    assert_eq!(store.find(&h, EXPIRATION_TIME_MILLIS + 500), vec![b]);
    assert_eq!(store.find(&h, EXPIRATION_TIME_MILLIS + 1000), Vec::<NodeAddr>::new());
}
