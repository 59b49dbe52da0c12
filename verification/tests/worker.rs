use bip::bencode::options::BDecodeOpt;
use bip::bencode::reference::BencodeRef;
use bip::dht::message::find_node::FindNodeRequest;
use bip::dht::routing::node::{Node, NodeAddr, NodeId, NodeStatus, MAX_LAST_SEEN_MILLIS};
use bip::dht::router::{first_ipv4, first_ipv6, map_ipv4, map_ipv6, Router};
use bip::dht::routing::table::{flip_id_bit_at_index, random_node_id, RoutingTable, MAX_BUCKETS};
use bip::dht::transaction::{AIDGenerator, TransactionID};
use bip::dht::worker::bootstrap::{BootstrapStatus, TableBootstrap};
use bip::dht::worker::refresh::{RefreshStatus, TableRefresh};
use bip::dht::worker::{
    bootstrap_verdict, num_good_nodes_at, retry_verdict, should_rebootstrap_at, BootstrapVerdict, ShutdownCause,
    BOOTSTRAP_GOOD_NODE_THRESHOLD, MAX_BOOTSTRAP_ATTEMPTS,
};

const START: i64 = 1_000_000_000;

fn table_with_node(remote_id: NodeId, addr: NodeAddr) -> RoutingTable {
    let mut table = RoutingTable::new([0u8; 20]);
    table.add_node_at(Node::as_good_at(remote_id, addr, START), START);
    table
}

fn read_find_node(message: &[u8], trans_id: &TransactionID) -> FindNodeRequest<'static> {
    let owned: &'static [u8] = Box::leak(message.to_vec().into_boxed_slice());
    let tid: &'static [u8] = Box::leak(trans_id.as_ref().to_vec().into_boxed_slice());
    let root = Box::leak(Box::new(BencodeRef::decode(owned, BDecodeOpt::default()).unwrap()));
    let args = root.dict().unwrap().lookup(b"a").unwrap().dict().unwrap();
    FindNodeRequest::from_parts(args, tid, b"target").unwrap()
}

#[test]
fn refresh_status_values_differ() {
    assert!(RefreshStatus::Refreshing != RefreshStatus::Failed);
}

#[test]
fn refresh_asks_the_questionable_node() {
    let mut remote_id = [0u8; 20];
    remote_id[0] = 0x80;
    let addr = NodeAddr::V4([10, 0, 0, 1], 6881);
    let mut table = table_with_node(remote_id, addr);
    let later = START + MAX_LAST_SEEN_MILLIS as i64 + 1;

    let mut aid = AIDGenerator::new();
    let mut refresh = TableRefresh::new(aid.generate());
    let step = refresh.continue_refresh_at(&mut table, later);
    let request = step.request.expect("a questionable node should be asked");
    assert_eq!(request.addr, addr);
    assert_eq!(request.trans_id.action_id(), step.timeout_id.action_id());

    let parsed = read_find_node(&request.message, &request.trans_id);
    assert_eq!(parsed.target_id(), flip_id_bit_at_index([0u8; 20], 0));

    // The request is counted against the node in the table.
    let found = table.closest_nodes_at(&remote_id, later);
    assert_eq!(found.len(), 1);
    assert_eq!(found[0].status_at(later), NodeStatus::Questionable);
    let step = refresh.continue_refresh_at(&mut table, later);
    assert!(step.request.is_some());
    let found = table.closest_nodes_at(&remote_id, later);
    assert!(found.is_empty());
}

#[test]
fn refresh_without_questionable_nodes_sends_nothing() {
    let mut remote_id = [0u8; 20];
    remote_id[0] = 0x80;
    let mut table = table_with_node(remote_id, NodeAddr::V4([10, 0, 0, 1], 6881));
    let mut aid = AIDGenerator::new();
    let mut refresh = TableRefresh::new(aid.generate());
    let step = refresh.continue_refresh_at(&mut table, START);
    assert!(step.request.is_none());
}

#[test]
fn bootstrap_start_asks_routers_then_nodes() {
    let router = NodeAddr::V4([1, 1, 1, 1], 6881);
    let node = NodeAddr::V4([2, 2, 2, 2], 6881);
    let mut aid = AIDGenerator::new();
    let mut bootstrap: TableBootstrap<u32> =
        TableBootstrap::new([3u8; 20], aid.generate(), vec![node], vec![router, router]);
    assert!(bootstrap.is_router(&router));
    assert!(!bootstrap.is_router(&node));
    assert_eq!(bootstrap.current_bootstrap_status(), BootstrapStatus::Idle);

    let start = bootstrap.start_bootstrap();
    assert_eq!(start.addrs, vec![router, node]);
    let parsed = read_find_node(&start.message, &start.trans_id);
    assert_eq!(parsed.target_id(), [3u8; 20]);

    bootstrap.record_timeout(start.trans_id, 7);
    assert_eq!(bootstrap.current_bootstrap_status(), BootstrapStatus::Bootstrapping);
}

#[test]
fn bootstrap_response_to_first_request_waits_for_its_timeout() {
    let mut aid = AIDGenerator::new();
    let mut table = RoutingTable::new([0u8; 20]);
    let mut bootstrap: TableBootstrap<u32> = TableBootstrap::new([0u8; 20], aid.generate(), Vec::new(), Vec::new());
    let start = bootstrap.start_bootstrap();
    bootstrap.record_timeout(start.trans_id, 7);
    let step = bootstrap.recv_response_at(&start.trans_id, &mut table, START);
    assert!(step.cleared.is_none());
    assert!(step.requests.is_empty());
    assert_eq!(step.status, BootstrapStatus::Bootstrapping);
}

#[test]
fn bootstrap_with_no_nodes_completes() {
    let mut aid = AIDGenerator::new();
    let mut table = RoutingTable::new([0u8; 20]);
    let mut bootstrap: TableBootstrap<u32> = TableBootstrap::new([0u8; 20], aid.generate(), Vec::new(), Vec::new());
    let start = bootstrap.start_bootstrap();
    bootstrap.record_timeout(start.trans_id, 7);
    let step = bootstrap.recv_timeout_at(&start.trans_id, &mut table, START);
    assert!(step.requests.is_empty());
    assert_eq!(step.status, BootstrapStatus::Completed);
    assert_eq!(bootstrap.current_bootstrap_status(), BootstrapStatus::Idle);
}

#[test]
fn bootstrap_asks_questionable_nodes_bucket_by_bucket() {
    let mut remote_id = [0u8; 20];
    remote_id[0] = 0x80;
    let addr = NodeAddr::V4([10, 0, 0, 1], 6881);
    let mut table = table_with_node(remote_id, addr);
    let later = START + MAX_LAST_SEEN_MILLIS as i64 + 1;
    let mut aid = AIDGenerator::new();
    let mut bootstrap: TableBootstrap<u32> = TableBootstrap::new([0u8; 20], aid.generate(), Vec::new(), Vec::new());
    let start = bootstrap.start_bootstrap();
    bootstrap.record_timeout(start.trans_id, 7);

    let step = bootstrap.recv_timeout_at(&start.trans_id, &mut table, later);
    assert!(step.cleared.is_none());
    assert_eq!(step.status, BootstrapStatus::Bootstrapping);
    assert_eq!(step.requests.len(), 1);
    assert_eq!(step.requests[0].addr, addr);
    let parsed = read_find_node(&step.requests[0].message, &step.requests[0].trans_id);
    assert_eq!(parsed.target_id(), flip_id_bit_at_index([0u8; 20], 0));

    // The answer to a bucket request clears its timeout and moves on.
    bootstrap.record_timeout(step.requests[0].trans_id, 8);
    let next = bootstrap.recv_response_at(&step.requests[0].trans_id, &mut table, later);
    assert_eq!(next.cleared, Some(8));
    assert_eq!(next.requests.len(), 1);
    assert_eq!(next.status, BootstrapStatus::Bootstrapping);
    assert!(MAX_BUCKETS > 2);
}

#[test]
fn bootstrap_ignores_unknown_transactions() {
    let mut aid = AIDGenerator::new();
    let mut table = RoutingTable::new([0u8; 20]);
    let mut bootstrap: TableBootstrap<u32> = TableBootstrap::new([0u8; 20], aid.generate(), Vec::new(), Vec::new());
    let start = bootstrap.start_bootstrap();
    let other = aid.generate().generate();
    let step = bootstrap.recv_timeout_at(&start.trans_id, &mut table, START);
    assert!(step.requests.is_empty());
    assert_eq!(step.status, BootstrapStatus::Idle);
    let step = bootstrap.recv_response_at(&other, &mut table, START);
    assert!(step.cleared.is_none());
    assert_eq!(step.status, BootstrapStatus::Idle);
}

#[test]
fn rebootstrap_when_few_good_nodes() {
    let table = RoutingTable::new([0u8; 20]);
    assert_eq!(num_good_nodes_at(&table, START), 0);
    assert!(should_rebootstrap_at(&table, START));

    let mut table = RoutingTable::new([0u8; 20]);
    for i in 0..12u8 {
        let mut id = [0u8; 20];
        id[(i / 8) as usize] = 0x80 >> (i % 8);
        table.add_node_at(Node::as_good_at(id, NodeAddr::V4([10, 0, 0, i], 6881), START), START);
    }
    let good = num_good_nodes_at(&table, START);
    assert!(good > BOOTSTRAP_GOOD_NODE_THRESHOLD);
    assert!(!should_rebootstrap_at(&table, START));
    let later = START + MAX_LAST_SEEN_MILLIS + 1;
    assert_eq!(num_good_nodes_at(&table, later), 0);
    assert!(should_rebootstrap_at(&table, later));
}

#[test]
fn router_hosts_and_address_choice() {
    assert_eq!(Router::uTorrent.host(), Some(("router.utorrent.com", 6881)));
    assert_eq!(Router::BitComet.host(), Some(("router.bitcomet.com", 6881)));
    assert_eq!(Router::Transmission.host(), Some(("dht.transmissionbt.com", 6881)));
    assert_eq!(Router::Custom(NodeAddr::V4([1, 2, 3, 4], 5)).host(), None);

    let v6 = NodeAddr::V6([0u8; 16], 1);
    let v4 = NodeAddr::V4([9, 9, 9, 9], 2);
    assert_eq!(first_ipv4(&[v6, v4]), Some(([9, 9, 9, 9], 2)));
    assert_eq!(first_ipv6(&[v6, v4]), Some(([0u8; 16], 1)));
    assert_eq!(first_ipv4(&[v6]), None);
    assert_eq!(map_ipv4(v6), None);
    assert_eq!(map_ipv6(v4), None);
}

#[test]
fn random_node_ids_differ() {
    let a = random_node_id();
    let b = random_node_id();
    let c = random_node_id();
    assert!(a != b || b != c);
}

#[test]
fn bootstrap_verdicts() {
    assert_eq!(bootstrap_verdict(BootstrapStatus::Idle, true), BootstrapVerdict::Complete);
    assert_eq!(bootstrap_verdict(BootstrapStatus::Bootstrapping, true), BootstrapVerdict::Pending);
    assert_eq!(
        bootstrap_verdict(BootstrapStatus::Failed, false),
        BootstrapVerdict::Shutdown(ShutdownCause::Unspecified)
    );
    assert_eq!(bootstrap_verdict(BootstrapStatus::Completed, true), BootstrapVerdict::Retry);
    assert_eq!(bootstrap_verdict(BootstrapStatus::Completed, false), BootstrapVerdict::Complete);

    let mut attempts = 0usize;
    assert_eq!(retry_verdict(&mut attempts, 0), BootstrapVerdict::Retry);
    assert_eq!(retry_verdict(&mut attempts, 0), BootstrapVerdict::Retry);
    assert_eq!(retry_verdict(&mut attempts, 0), BootstrapVerdict::Shutdown(ShutdownCause::BootstrapFailed));
    assert_eq!(attempts, MAX_BOOTSTRAP_ATTEMPTS);
    let mut attempts = MAX_BOOTSTRAP_ATTEMPTS;
    assert_eq!(retry_verdict(&mut attempts, 4), BootstrapVerdict::Complete);
}

#[test]
fn refresh_walks_the_buckets_in_turn_under_one_action() {
    let mut table = RoutingTable::new([0u8; 20]);
    let later = START + MAX_LAST_SEEN_MILLIS as i64 + 1;
    let mut ids = Vec::new();
    for b in 0..MAX_BUCKETS {
        let remote_id = flip_id_bit_at_index([0u8; 20], b);
        table.add_node_at(Node::as_good_at(remote_id, NodeAddr::V4([10, 0, (b / 256) as u8, (b % 256) as u8], 6881), START), START);
    }
    let mut aid = AIDGenerator::new();
    let generator = aid.generate();
    let action = generator.action_id();
    let mut refresh = TableRefresh::new(generator);
    for i in 0..(MAX_BUCKETS + 2) {
        let step = refresh.continue_refresh_at(&mut table, later);
        assert_eq!(step.timeout_id.action_id(), action);
        ids.push(step.timeout_id.as_ref().to_vec());
        if let Some(request) = step.request {
            assert_eq!(request.trans_id.action_id(), action);
            ids.push(request.trans_id.as_ref().to_vec());
            let parsed = read_find_node(&request.message, &request.trans_id);
            assert_eq!(parsed.target_id(), flip_id_bit_at_index([0u8; 20], i % MAX_BUCKETS));
        }
    }
    let mut sorted = ids.clone();
    sorted.sort();
    sorted.dedup();
    assert_eq!(sorted.len(), ids.len());
}
