use bip::dht::routing::bucket::{Bucket, MAX_BUCKET_SIZE};
use bip::dht::routing::node::{Node, NodeAddr, NodeId, NodeStatus, MAX_LAST_SEEN_MILLIS, MAX_REFRESH_REQUESTS};
use bip::dht::routing::table::{self, flip_id_bit_at_index, leading_bit_count, BucketContents, RoutingTable};

fn dummy_node_id() -> NodeId {
    [0u8; 20]
}

fn dummy_socket_addr_v4() -> NodeAddr {
    NodeAddr::V4([127, 0, 0, 1], 0)
}

fn dummy_block_node_ids(num_ids: u8) -> Vec<NodeId> {
    (0..num_ids)
        .map(|i| {
            let mut id = [0u8; 20];
            id[19] = i;
            id
        })
        .collect()
}

fn dummy_block_socket_addrs(num_addrs: u16) -> Vec<NodeAddr> {
    (0..num_addrs).map(|port| NodeAddr::V4([127, 0, 0, 1], port)).collect()
}

fn now() -> i64 {
    std::time::SystemTime::now().duration_since(std::time::UNIX_EPOCH).unwrap().as_millis() as i64
}

#[test]
fn positive_as_bad() {
    let node = Node::as_bad(dummy_node_id(), dummy_socket_addr_v4());

    assert_eq!(node.status(), NodeStatus::Bad);
}

#[test]
fn positive_as_questionable() {
    let node = Node::as_questionable(dummy_node_id(), dummy_socket_addr_v4());

    assert_eq!(node.status(), NodeStatus::Questionable);
}

#[test]
fn positive_as_good() {
    let node = Node::as_good(dummy_node_id(), dummy_socket_addr_v4());

    assert_eq!(node.status(), NodeStatus::Good);
}

#[test]
fn positive_response_renewal() {
    let mut node = Node::as_questionable(dummy_node_id(), dummy_socket_addr_v4());

    node.remote_response();

    assert_eq!(node.status(), NodeStatus::Good);
}

#[test]
fn positive_request_renewal() {
    let mut node = Node::as_questionable(dummy_node_id(), dummy_socket_addr_v4());

    node.remote_request();

    assert_eq!(node.status(), NodeStatus::Good);
}

#[test]
fn positive_node_idle() {
    let mut node = Node::as_good(dummy_node_id(), dummy_socket_addr_v4());

    let idle_time = now() - MAX_LAST_SEEN_MILLIS;
    node.remote_response_at(idle_time);

    assert_eq!(node.status(), NodeStatus::Questionable);
}

#[test]
fn positive_node_idle_reqeusts() {
    let mut node = Node::as_questionable(dummy_node_id(), dummy_socket_addr_v4());

    for _ in 0..MAX_REFRESH_REQUESTS {
        node.local_request();
    }

    assert_eq!(node.status(), NodeStatus::Bad);
}

#[test]
fn positive_good_status_ordering() {
    assert!(NodeStatus::Good > NodeStatus::Questionable);
    assert!(NodeStatus::Good > NodeStatus::Bad);
    assert!(NodeStatus::Good == NodeStatus::Good);
}

#[test]
fn positive_questionable_status_ordering() {
    assert!(NodeStatus::Questionable > NodeStatus::Bad);
    assert!(NodeStatus::Questionable < NodeStatus::Good);
    assert!(NodeStatus::Questionable == NodeStatus::Questionable);
}

#[test]
fn positive_bad_status_ordering() {
    assert!(NodeStatus::Bad < NodeStatus::Good);
    assert!(NodeStatus::Bad < NodeStatus::Questionable);
    assert!(NodeStatus::Bad == NodeStatus::Bad);
}

#[test]
fn positive_initial_no_nodes() {
    let bucket = Bucket::new();

    assert_eq!(bucket.good_nodes().len(), 0);
    assert_eq!(bucket.pingable_nodes().len(), 0);
}

#[test]
fn positive_all_questionable_nodes() {
    let mut bucket = Bucket::new();

    let dummy_addr = dummy_socket_addr_v4();
    let dummy_ids = dummy_block_node_ids(MAX_BUCKET_SIZE as u8);
    for index in 0..MAX_BUCKET_SIZE {
        let node = Node::as_questionable(dummy_ids[index], dummy_addr);
        bucket.add_node(node);
    }

    assert_eq!(bucket.good_nodes().len(), 0);
    assert_eq!(bucket.pingable_nodes().len(), MAX_BUCKET_SIZE);
}

#[test]
fn positive_all_good_nodes() {
    let mut bucket = Bucket::new();

    let dummy_addr = dummy_socket_addr_v4();
    let dummy_ids = dummy_block_node_ids(MAX_BUCKET_SIZE as u8);
    for index in 0..MAX_BUCKET_SIZE {
        let node = Node::as_good(dummy_ids[index], dummy_addr);
        bucket.add_node(node);
    }

    assert_eq!(bucket.good_nodes().len(), MAX_BUCKET_SIZE);
    assert_eq!(bucket.pingable_nodes().len(), MAX_BUCKET_SIZE);
}

#[test]
fn positive_replace_questionable_node() {
    let mut bucket = Bucket::new();

    let dummy_addr = dummy_socket_addr_v4();
    let dummy_ids = dummy_block_node_ids(MAX_BUCKET_SIZE as u8);
    for index in 0..MAX_BUCKET_SIZE {
        let node = Node::as_questionable(dummy_ids[index], dummy_addr);
        bucket.add_node(node);
    }

    assert_eq!(bucket.good_nodes().len(), 0);
    assert_eq!(bucket.pingable_nodes().len(), MAX_BUCKET_SIZE);

    let good_node = Node::as_good(dummy_ids[0], dummy_addr);
    bucket.add_node(good_node.clone());

    assert_eq!(bucket.good_nodes()[0], good_node);
    assert_eq!(bucket.good_nodes().len(), 1);
    assert_eq!(bucket.pingable_nodes().len(), MAX_BUCKET_SIZE);
}

#[test]
fn positive_resist_good_node_churn() {
    let mut bucket = Bucket::new();

    let dummy_addr = dummy_socket_addr_v4();
    let dummy_ids = dummy_block_node_ids((MAX_BUCKET_SIZE as u8) + 1);
    for index in 0..MAX_BUCKET_SIZE {
        let node = Node::as_good(dummy_ids[index], dummy_addr);
        bucket.add_node(node);
    }

    assert_eq!(bucket.good_nodes().len(), MAX_BUCKET_SIZE);

    let unused_id = dummy_ids[dummy_ids.len() - 1];
    let new_good_node = Node::as_good(unused_id, dummy_addr);

    assert!(bucket.good_nodes().iter().find(|node| &new_good_node == *node).is_none());

    bucket.add_node(new_good_node.clone());

    assert!(bucket.good_nodes().iter().find(|node| &new_good_node == *node).is_none());
}

#[test]
fn positive_resist_questionable_node_churn() {
    let mut bucket = Bucket::new();

    let dummy_addr = dummy_socket_addr_v4();
    let dummy_ids = dummy_block_node_ids((MAX_BUCKET_SIZE as u8) + 1);
    for index in 0..MAX_BUCKET_SIZE {
        let node = Node::as_questionable(dummy_ids[index], dummy_addr);
        bucket.add_node(node);
    }

    assert_eq!(
        bucket.pingable_nodes().iter().filter(|node| node.status() == NodeStatus::Questionable).count(),
        MAX_BUCKET_SIZE
    );

    let unused_id = dummy_ids[dummy_ids.len() - 1];
    let new_questionable_node = Node::as_questionable(unused_id, dummy_addr);

    assert!(bucket.pingable_nodes().iter().find(|node| &new_questionable_node == *node).is_none());

    bucket.add_node(new_questionable_node.clone());

    assert_eq!(
        bucket.pingable_nodes().iter().filter(|node| node.status() == NodeStatus::Questionable).count(),
        MAX_BUCKET_SIZE
    );
}

#[test]
fn positive_add_node_max_recursion() {
    let table_id = [1u8; 20];
    let mut table = RoutingTable::new(table_id);

    let mut node_id = table_id;
    node_id[20 - 1] = 0;

    let block_addrs = dummy_block_socket_addrs((MAX_BUCKET_SIZE + 1) as u16);
    for index in 0..(MAX_BUCKET_SIZE + 1) {
        let node = Node::as_good(node_id, block_addrs[index]);

        table.add_node(node);
    }
}

#[test]
fn positive_initial_empty_buckets() {
    let table_id = [1u8; 20];
    let table = RoutingTable::new(table_id);

    assert_eq!(table.buckets().into_iter().take(table::MAX_BUCKETS).count(), table::MAX_BUCKETS);
    assert!(table.buckets().into_iter().take(table::MAX_BUCKETS).fold(true, |prev, contents| prev && contents.is_empty()));

    assert_eq!(table.buckets().into_iter().skip(table::MAX_BUCKETS).count(), 1);
    for bucket in table.buckets().into_iter().skip(table::MAX_BUCKETS) {
        match bucket {
            BucketContents::Assorted(b) => assert_eq!(b.pingable_nodes().len(), 0),
            _ => panic!("Expected BucketContents::Assorted"),
        }
    }
}

#[test]
fn positive_first_bucket_sorted() {
    let table_id = [1u8; 20];
    let mut table = RoutingTable::new(table_id);

    let mut node_id = table_id;
    node_id[0] |= 128;

    let block_addrs = dummy_block_socket_addrs((MAX_BUCKET_SIZE + 1) as u16);
    for index in 0..(MAX_BUCKET_SIZE + 1) {
        let node = Node::as_good(node_id, block_addrs[index]);

        table.add_node(node);
    }

    assert_eq!(table.buckets().into_iter().take(1).count(), 1);
    for bucket in table.buckets().into_iter().take(1) {
        match bucket {
            BucketContents::Sorted(b) => assert_eq!(b.pingable_nodes().len(), MAX_BUCKET_SIZE),
            _ => panic!("Expected BucketContents::Sorted"),
        }
    }

    assert_eq!(table.buckets().into_iter().skip(1).take(table::MAX_BUCKETS - 1).count(), table::MAX_BUCKETS - 1);
    assert!(table
        .buckets()
        .into_iter()
        .skip(1)
        .take(table::MAX_BUCKETS - 1)
        .fold(true, |prev, contents| prev && contents.is_empty()));

    assert_eq!(table.buckets().into_iter().skip(table::MAX_BUCKETS).count(), 1);
    for bucket in table.buckets().into_iter().skip(table::MAX_BUCKETS) {
        match bucket {
            BucketContents::Assorted(b) => assert_eq!(b.pingable_nodes().len(), 0),
            _ => panic!("Expected BucketContents::Assorted"),
        }
    }
}

#[test]
fn positive_last_bucket_sorted() {
    let table_id = [1u8; 20];
    let mut table = RoutingTable::new(table_id);

    let mut node_id = table_id;
    node_id[20 - 1] = 0;

    let block_addrs = dummy_block_socket_addrs((MAX_BUCKET_SIZE + 1) as u16);
    for index in 0..(MAX_BUCKET_SIZE + 1) {
        let node = Node::as_good(node_id, block_addrs[index]);

        table.add_node(node);
    }

    assert_eq!(table.buckets().into_iter().take(table::MAX_BUCKETS - 1).count(), table::MAX_BUCKETS - 1);
    for bucket in table.buckets().into_iter().take(table::MAX_BUCKETS - 1) {
        match bucket {
            BucketContents::Sorted(b) => assert_eq!(b.pingable_nodes().len(), 0),
            _ => panic!("Expected BucketContents::Sorted"),
        }
    }

    assert_eq!(table.buckets().into_iter().skip(table::MAX_BUCKETS - 1).take(1).count(), 1);
    for bucket in table.buckets().into_iter().skip(table::MAX_BUCKETS - 1).take(1) {
        match bucket {
            BucketContents::Sorted(b) => assert_eq!(b.pingable_nodes().len(), MAX_BUCKET_SIZE),
            _ => panic!("Expected BucketContents::Sorted"),
        }
    }

    assert_eq!(table.buckets().into_iter().skip(table::MAX_BUCKETS).count(), 0);
}

#[test]
fn positive_all_sorted_buckets() {
    let table_id = [1u8; 20];
    let mut table = RoutingTable::new(table_id);

    let block_addrs = dummy_block_socket_addrs(MAX_BUCKET_SIZE as u16);
    for bit_flip_index in 0..table::MAX_BUCKETS {
        for addr_index in 0..block_addrs.len() {
            let bucket_node_id = flip_id_bit_at_index(table_id, bit_flip_index);

            table.add_node(Node::as_good(bucket_node_id, block_addrs[addr_index]));
        }
    }

    assert_eq!(table.buckets().len(), table::MAX_BUCKETS);
    for bucket in table.buckets() {
        match bucket {
            BucketContents::Sorted(b) => assert_eq!(b.pingable_nodes().len(), MAX_BUCKET_SIZE),
            _ => panic!("Expected BucketContents::Sorted"),
        }
    }
}

#[test]
fn negative_node_id_equal_table_id() {
    let table_id = [1u8; 20];
    let mut table = RoutingTable::new(table_id);

    assert_eq!(table.closest_nodes(&table_id).len(), 0);

    let node = Node::as_good(table_id, dummy_socket_addr_v4());
    table.add_node(node);

    assert_eq!(table.closest_nodes(&table_id).len(), 0);
}

#[test]
fn leading_bits_of_flipped_ids() {
    let table_id = [1u8; 20];
    for index in 0..table::MAX_BUCKETS {
        assert_eq!(leading_bit_count(&table_id, &flip_id_bit_at_index(table_id, index)), index);
    }
    assert_eq!(leading_bit_count(&table_id, &table_id), table::MAX_BUCKETS);
}

#[test]
fn next_bucket_index_walks_outwards() {
    let mut order = vec![3usize];
    let mut cur = 3usize;
    while let Some(n) = table::next_bucket_index(6, 3, cur) {
        order.push(n);
        cur = n;
    }
    assert_eq!(order, vec![3, 4, 2, 5, 1, 0]);
    assert_eq!(table::bucket_placement(10, 4), 3);
    assert_eq!(table::bucket_placement(2, 4), 2);
    assert!(table::can_split_bucket(4, 3));
    assert!(!table::can_split_bucket(4, 2));
    assert!(!table::can_split_bucket(table::MAX_BUCKETS, table::MAX_BUCKETS - 1));
    assert!(!table::index_is_in_bounds(4, None));
    assert!(table::index_is_in_bounds(4, Some(3)));
}

#[test]
fn closest_nodes_finds_added_node() {
    let table_id = [1u8; 20];
    let mut table = RoutingTable::new(table_id);
    let node_id = flip_id_bit_at_index(table_id, 5);
    let node = Node::as_good(node_id, dummy_socket_addr_v4());
    table.add_node(node);

    let closest = table.closest_nodes(&node_id);
    assert_eq!(closest.len(), 1);
    assert_eq!(closest[0], node);
    // The node sits in the assorted bucket, which a lookup of its own bucket index does not search
    assert_eq!(table.find_node(&node), None);
    assert_eq!(table.node_id(), table_id);
}

#[test]
fn bad_node_is_not_added() {
    let mut bucket = Bucket::new();
    assert!(bucket.add_node(Node::as_bad([3u8; 20], dummy_socket_addr_v4())));
    assert_eq!(bucket.pingable_nodes().len(), 0);
    assert!(bucket.needs_refresh());
    assert!(bucket.add_node(Node::as_good([3u8; 20], dummy_socket_addr_v4())));
    assert!(!bucket.needs_refresh());
}

#[test]
fn added_node_is_found_once_its_bucket_is_sorted() {
    let start = 1_000_000_000i64;
    let mut table = RoutingTable::new([0u8; 20]);
    let mut first = None;
    for i in 0..8u8 {
        let mut id = [0u8; 20];
        id[0] = 0x80 | i;
        let node = Node::as_good_at(id, NodeAddr::V4([10, 0, 0, i], 6881), start);
        table.add_node_at(node, start);
        if first.is_none() {
            first = Some(node);
        }
    }
    let first = first.unwrap();
    // The only bucket is the last one: its nodes are not looked up there.
    assert!(table.find_node_at(&first, start).is_none());

    let mut id = [0u8; 20];
    id[0] = 0x40;
    let other = Node::as_good_at(id, NodeAddr::V4([10, 0, 1, 1], 6881), start);
    table.add_node_at(other, start);

    // The full bucket was split: the first nodes now sit in a sorted bucket.
    let found = table.find_node_at(&first, start).expect("the node should be found");
    assert!(found.same_as(&first));
    assert!(table.find_node_at(&other, start).is_none());
    assert_eq!(table.closest_nodes_at(&id, start).len(), 9);
}

#[test]
fn bucket_walk_visits_every_bucket_once() {
    let mut seen = vec![2usize];
    let mut cur = 2usize;
    while let Some(next) = table::next_bucket_index(5, 2, cur) {
        seen.push(next);
        cur = next;
    }
    assert_eq!(seen, vec![2, 3, 1, 4, 0]);
}
