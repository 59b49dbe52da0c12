use bip::bencode::options::BDecodeOpt;
use bip::bencode::reference::BencodeRef;
use bip::dht::error::DhtError;
use bip::dht::message::announce_peer::{AnnouncePeerRequest, AnnouncePeerResponse, ResponsePort};
use bip::dht::message::error::{ErrorCode, ErrorMessage};
use bip::dht::message::find_node::{FindNodeRequest, FindNodeResponse};
use bip::dht::message::ping::{PingRequest, PingResponse};
use bip::dht::message::request::RequestType;
use bip::dht::routing::node::{Node, NodeAddr};
use bip::dht::routing::table::RoutingTable;
use bip::dht::storage::AnnounceStorage;
use bip::dht::token::{IpAddr, TokenStore};
use bip::dht::worker::handler::{handle_request_at, HandlerState};

const NOW: i64 = 1_000_000_000;

fn state(own_id: [u8; 20], read_only: bool) -> HandlerState {
    HandlerState {
        read_only,
        table: RoutingTable::new(own_id),
        token_store: TokenStore::new_at(NOW),
        storage: AnnounceStorage::new(),
    }
}

fn sender_addr() -> NodeAddr {
    NodeAddr::V4([10, 0, 0, 1], 6881)
}

#[test]
fn find_node_response_round_trip() {
    let node_id = [9u8; 20];
    let mut nodes = vec![1u8; 20];
    nodes.extend_from_slice(&[192, 168, 0, 1, 0x1A, 0xE1]);
    let response = FindNodeResponse::new(b"fn", node_id, &nodes).unwrap();
    let bytes = response.encode();
    let expected: Vec<u8> =
        [&b"d1:rd2:id20:"[..], &node_id[..], &b"5:nodes26:"[..], &nodes[..], &b"e1:t2:fn1:y1:re"[..]].concat();
    assert_eq!(bytes, expected);

    let root = BencodeRef::decode(&bytes[..], BDecodeOpt::default()).unwrap();
    let args = root.dict().unwrap().lookup(b"r").unwrap().dict().unwrap();
    let parsed = FindNodeResponse::from_parts(args, b"fn").unwrap();
    assert_eq!(parsed, response);
    assert_eq!(parsed.node_id(), node_id);
    assert_eq!(parsed.transaction_id(), b"fn");
    assert_eq!(parsed.nodes().nodes(), &nodes[..]);
}

#[test]
fn find_node_response_partial_node_is_refused() {
    let nodes = [0u8; 27];
    match FindNodeResponse::new(b"fn", [9u8; 20], &nodes) {
        Err(DhtError::InvalidResponse { details }) => {
            assert_eq!(details, "Compact Nodes With Length 27 Are Not Valid")
        },
        other => panic!("unexpected {:?}", other.err()),
    }
}

#[test]
fn find_node_response_missing_nodes_is_refused() {
    let bytes = b"d2:id20:aaaaaaaaaaaaaaaaaaaae";
    let root = BencodeRef::decode(&bytes[..], BDecodeOpt::default()).unwrap();
    match FindNodeResponse::from_parts(root.dict().unwrap(), b"fn") {
        Err(DhtError::InvalidRequest { msg }) => {
            assert_eq!(msg.error_message(), "Missing Dictionary Key: nodes");
            assert_eq!(msg.error_code(), ErrorCode::ProtocolError);
        },
        other => panic!("unexpected {:?}", other.err()),
    }
}

#[test]
fn ping_is_answered_with_our_id() {
    let own_id = [0u8; 20];
    let mut st = state(own_id, false);
    let ping = PingRequest::new(b"pg", [0x80u8; 20]);
    let reply = handle_request_at(&mut st, &RequestType::Ping(ping), sender_addr(), NOW).unwrap();
    assert_eq!(reply, PingResponse::new(b"pg", own_id).encode());
}

#[test]
fn read_only_answers_nothing() {
    let own_id = [0u8; 20];
    let mut st = state(own_id, true);
    let ping = PingRequest::new(b"pg", [0x80u8; 20]);
    assert!(handle_request_at(&mut st, &RequestType::Ping(ping), sender_addr(), NOW).is_none());
}

#[test]
fn ping_marks_the_sender_in_the_table() {
    let own_id = [0u8; 20];
    let mut st = state(own_id, false);
    // Eight good nodes sharing no leading bit with our id fill the only bucket; one sharing a
    // bit splits it, so that the first bucket holds the eight.
    for i in 0..8u8 {
        let mut id = [0u8; 20];
        id[0] = 0x80;
        id[19] = i;
        st.table.add_node_at(Node::as_good_at(id, NodeAddr::V4([10, 0, 0, i], 6881), NOW), NOW);
    }
    let mut near = [0u8; 20];
    near[0] = 0x40;
    st.table.add_node_at(Node::as_good_at(near, NodeAddr::V4([10, 0, 1, 1], 6881), NOW), NOW);

    let mut id = [0u8; 20];
    id[0] = 0x80;
    id[19] = 3;
    let addr = NodeAddr::V4([10, 0, 0, 3], 6881);
    // Twenty minutes later the node has become questionable.
    let later = NOW + 20 * 60 * 1000;
    let probe = Node::as_good_at(id, addr, later);
    let before = st.table.find_node_at(&probe, later).unwrap();
    assert_eq!(before.status_at(later), bip::dht::routing::node::NodeStatus::Questionable);

    let ping = PingRequest::new(b"pg", id);
    handle_request_at(&mut st, &RequestType::Ping(ping), addr, later).unwrap();
    let found = st.table.find_node_at(&probe, later).unwrap();
    // The request just recorded makes the node good again.
    assert_eq!(found.status_at(later), bip::dht::routing::node::NodeStatus::Good);
}

#[test]
fn find_node_is_answered_with_closest_nodes() {
    let own_id = [0u8; 20];
    let mut st = state(own_id, false);
    let mut id = [0u8; 20];
    id[0] = 0x80;
    let addr = NodeAddr::V4([192, 168, 1, 2], 0x1AE1);
    st.table.add_node_at(Node::as_good_at(id, addr, NOW), NOW);
    let request = FindNodeRequest::new(b"fq", [0x55u8; 20], id);
    let reply = handle_request_at(&mut st, &RequestType::FindNode(request), sender_addr(), NOW).unwrap();
    let mut nodes = id.to_vec();
    nodes.extend_from_slice(&[192, 168, 1, 2, 0x1A, 0xE1]);
    let expected = FindNodeResponse::new(b"fq", own_id, &nodes).unwrap().encode();
    assert_eq!(reply, expected);
}

#[test]
fn announce_with_our_token_is_stored() {
    let own_id = [0u8; 20];
    let mut st = state(own_id, false);
    let from = sender_addr();
    let token = st.token_store.checkout_at(IpAddr::V4([10, 0, 0, 1]), NOW);
    let node_id = [0x33u8; 20];
    let info_hash = [0x44u8; 20];
    let request = AnnouncePeerRequest::new(b"an", &node_id, &info_hash, token.as_ref(), ResponsePort::Explicit(7000)).unwrap();
    let reply = handle_request_at(&mut st, &RequestType::AnnouncePeer(request), from, NOW + 1000).unwrap();
    assert_eq!(reply, AnnouncePeerResponse::new(b"an", &own_id).unwrap().encode());
    assert_eq!(st.storage.find(&info_hash, NOW + 2000), vec![NodeAddr::V4([10, 0, 0, 1], 7000)]);
}

#[test]
fn announce_with_unknown_token_is_refused() {
    let own_id = [0u8; 20];
    let mut st = state(own_id, false);
    let node_id = [0x33u8; 20];
    let info_hash = [0x44u8; 20];
    let bad_token = [0u8; 20];
    let request = AnnouncePeerRequest::new(b"an", &node_id, &info_hash, &bad_token, ResponsePort::Implied).unwrap();
    let reply = handle_request_at(&mut st, &RequestType::AnnouncePeer(request), sender_addr(), NOW).unwrap();
    let expected = ErrorMessage::new(b"an".to_vec(), ErrorCode::ProtocolError, "Received An Invalid Token".to_string()).encode();
    assert_eq!(reply, expected);
    assert!(st.storage.find(&info_hash, NOW).is_empty());
}

#[test]
fn announce_with_short_token_is_refused() {
    let own_id = [0u8; 20];
    let mut st = state(own_id, false);
    let node_id = [0x33u8; 20];
    let info_hash = [0x44u8; 20];
    let request = AnnouncePeerRequest::new(b"an", &node_id, &info_hash, b"tok", ResponsePort::Implied).unwrap();
    let reply = handle_request_at(&mut st, &RequestType::AnnouncePeer(request), sender_addr(), NOW).unwrap();
    let expected = ErrorMessage::new(b"an".to_vec(), ErrorCode::ProtocolError, "Received An Invalid Token".to_string()).encode();
    assert_eq!(reply, expected);
}

fn bencoded_bytes(b: &[u8]) -> Vec<u8> {
    let mut out = format!("{}:", b.len()).into_bytes();
    out.extend_from_slice(b);
    out
}

#[test]
fn get_peers_always_sends_nodes() {
    let own_id = [0u8; 20];
    let mut st = state(own_id, false);
    let mut id = [0u8; 20];
    id[0] = 0x80;
    st.table.add_node_at(Node::as_good_at(id, NodeAddr::V4([192, 168, 1, 2], 0x1AE1), NOW), NOW);
    let info_hash = id;
    let reply = bip::dht::worker::handler::handle_get_peers_at(&mut st, b"gp", [0x55u8; 20], info_hash, sender_addr(), NOW).unwrap();
    let token = st.token_store.checkout_at(IpAddr::V4([10, 0, 0, 1]), NOW);
    let mut nodes = id.to_vec();
    nodes.extend_from_slice(&[192, 168, 1, 2, 0x1A, 0xE1]);
    let expected: Vec<u8> = [
        &b"d1:rd2:id"[..],
        &bencoded_bytes(&own_id),
        &b"5:nodes"[..],
        &bencoded_bytes(&nodes),
        &b"5:token"[..],
        &bencoded_bytes(token.as_ref()),
        &b"e1:t2:gp1:y1:re"[..],
    ]
    .concat();
    assert_eq!(reply, expected);
}

#[test]
fn get_peers_gives_announced_peers() {
    let own_id = [0u8; 20];
    let mut st = state(own_id, false);
    let info_hash = [0x44u8; 20];
    assert!(st.storage.add_with(info_hash, NodeAddr::V4([1, 2, 3, 4], 0x1AE1), NOW, NOW));
    let reply = bip::dht::worker::handler::handle_get_peers_at(&mut st, b"gp", [0x55u8; 20], info_hash, sender_addr(), NOW).unwrap();
    let token = st.token_store.checkout_at(IpAddr::V4([10, 0, 0, 1]), NOW);
    let expected: Vec<u8> = [
        &b"d1:rd2:id"[..],
        &bencoded_bytes(&own_id),
        &b"5:nodes0:5:token"[..],
        &bencoded_bytes(token.as_ref()),
        &b"6:valuesl6:"[..],
        &[1, 2, 3, 4, 0x1A, 0xE1][..],
        &b"ee1:t2:gp1:y1:re"[..],
    ]
    .concat();
    assert_eq!(reply, expected);
}
