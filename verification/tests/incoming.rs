use bip::bencode::options::BDecodeOpt;
use bip::bencode::reference::BencodeRef;
use bip::dht::message::get_peers::GetPeersRequest;
use bip::dht::message::request::RequestType;
use bip::dht::routing::node::NodeAddr;
use bip::dht::routing::table::RoutingTable;
use bip::dht::storage::AnnounceStorage;
use bip::dht::token::TokenStore;
use bip::dht::transaction::AIDGenerator;
use bip::dht::worker::handler::{
    expected_response, handle_request_at, incoming_kind, route_message, ActionKind, ExpectedResponse, HandlerState,
    IncomingKind, Route, TableActions,
};

const NOW: i64 = 1_000_000_000;

#[test]
fn get_peers_request_round_trip() {
    let node_id = [3u8; 20];
    let info_hash = [4u8; 20];
    let request = GetPeersRequest::new(b"gp", node_id, info_hash);
    let bytes = request.encode();
    let expected: Vec<u8> = [
        &b"d1:ad2:id20:"[..],
        &node_id[..],
        &b"9:info_hash20:"[..],
        &info_hash[..],
        &b"e1:q9:get_peers1:t2:gp1:y1:qe"[..],
    ]
    .concat();
    assert_eq!(bytes, expected);
    let root = BencodeRef::decode(&bytes[..], BDecodeOpt::default()).unwrap();
    let args = root.dict().unwrap().lookup(b"a").unwrap().dict().unwrap();
    let parsed = GetPeersRequest::from_parts(args, b"gp").unwrap();
    assert_eq!(parsed, request);
    assert_eq!(parsed.transaction_id(), b"gp");
    assert_eq!(parsed.node_id(), node_id);
    assert_eq!(parsed.info_hash(), info_hash);
}

#[test]
fn get_peers_request_without_info_hash_is_refused() {
    let bytes: Vec<u8> = [&b"d1:ad2:id20:"[..], &[3u8; 20][..], &b"e1:q9:get_peers1:t2:gp1:y1:qe"[..]].concat();
    let root = BencodeRef::decode(&bytes[..], BDecodeOpt::default()).unwrap();
    let args = root.dict().unwrap().lookup(b"a").unwrap().dict().unwrap();
    assert!(GetPeersRequest::from_parts(args, b"gp").is_err());
}

#[test]
fn request_type_reads_get_peers() {
    let node_id = [6u8; 20];
    let info_hash = [9u8; 20];
    let bytes = GetPeersRequest::new(b"gq", node_id, info_hash).encode();
    let root = BencodeRef::decode(&bytes[..], BDecodeOpt::default()).unwrap();
    let request = RequestType::from_parts(root.dict().unwrap(), b"gq", b"get_peers").unwrap();
    assert_eq!(request.transaction_id(), b"gq");
    match request {
        RequestType::GetPeers(g) => {
            assert_eq!(g.node_id(), node_id);
            assert_eq!(g.info_hash(), info_hash);
        },
        _ => panic!("expected a get peers request"),
    }
}

#[test]
fn get_peers_request_is_answered_through_the_handler() {
    let own_id = [0u8; 20];
    let mut st = HandlerState {
        read_only: false,
        table: RoutingTable::new(own_id),
        token_store: TokenStore::new_at(NOW),
        storage: AnnounceStorage::new(),
    };
    let bytes = GetPeersRequest::new(b"gq", [6u8; 20], [9u8; 20]).encode();
    let root = BencodeRef::decode(&bytes[..], BDecodeOpt::default()).unwrap();
    let request = RequestType::from_parts(root.dict().unwrap(), b"gq", b"get_peers").unwrap();
    let reply = handle_request_at(&mut st, &request, NodeAddr::V4([10, 0, 0, 1], 6881), NOW).unwrap();
    let start: Vec<u8> = [&b"d1:rd2:id20:"[..], &own_id[..], &b"5:nodes0:5:token"[..]].concat();
    assert!(reply.starts_with(&start));
    assert!(reply.ends_with(b"e1:t2:gq1:y1:re"));
}

#[test]
fn table_actions_insert_remove_and_kind() {
    let mut aids = AIDGenerator::new();
    let lookup = aids.generate().action_id();
    let refresh = aids.generate().action_id();
    let mut actions = TableActions::new();
    assert_eq!(actions.kind_of(lookup.value_of()), None);
    actions.insert(lookup, ActionKind::Lookup);
    actions.insert(refresh, ActionKind::Refresh);
    assert_eq!(actions.kind_of(lookup.value_of()), Some(ActionKind::Lookup));
    assert_eq!(actions.kind_of(refresh.value_of()), Some(ActionKind::Refresh));
    actions.insert(refresh, ActionKind::Bootstrap);
    assert_eq!(actions.kind_of(refresh.value_of()), Some(ActionKind::Bootstrap));
    actions.remove(lookup);
    assert_eq!(actions.kind_of(lookup.value_of()), None);
    assert_eq!(actions.kind_of(refresh.value_of()), Some(ActionKind::Bootstrap));
}

#[test]
fn answers_are_routed_to_their_action() {
    let mut aids = AIDGenerator::new();
    let mut lookup_ids = aids.generate();
    let mut refresh_ids = aids.generate();
    let mut bootstrap_ids = aids.generate();
    let mut stranger_ids = aids.generate();
    let mut actions = TableActions::new();
    actions.insert(lookup_ids.action_id(), ActionKind::Lookup);
    actions.insert(refresh_ids.action_id(), ActionKind::Refresh);
    actions.insert(bootstrap_ids.action_id(), ActionKind::Bootstrap);

    let lookup_t = lookup_ids.generate();
    let refresh_t = refresh_ids.generate();
    let bootstrap_t = bootstrap_ids.generate();
    let stranger_t = stranger_ids.generate();

    assert_eq!(expected_response(&actions, lookup_t.as_ref()), ExpectedResponse::GetPeers);
    assert_eq!(expected_response(&actions, refresh_t.as_ref()), ExpectedResponse::FindNode);
    assert_eq!(expected_response(&actions, bootstrap_t.as_ref()), ExpectedResponse::FindNode);
    assert_eq!(expected_response(&actions, stranger_t.as_ref()), ExpectedResponse::Nothing);
    assert_eq!(expected_response(&actions, b"xy"), ExpectedResponse::Nothing);

    assert_eq!(
        route_message(false, &actions, IncomingKind::GetPeersResponse, lookup_t.as_ref()),
        Route::LookupResponse
    );
    assert_eq!(
        route_message(false, &actions, IncomingKind::FindNodeResponse, refresh_t.as_ref()),
        Route::RefreshResponse
    );
    assert_eq!(
        route_message(false, &actions, IncomingKind::FindNodeResponse, bootstrap_t.as_ref()),
        Route::BootstrapResponse
    );
    assert_eq!(
        route_message(false, &actions, IncomingKind::FindNodeResponse, stranger_t.as_ref()),
        Route::UnmatchedFindNode
    );
    assert_eq!(route_message(false, &actions, IncomingKind::GetPeersResponse, stranger_t.as_ref()), Route::Drop);
    assert_eq!(route_message(false, &actions, IncomingKind::OtherResponse, lookup_t.as_ref()), Route::Drop);
    assert_eq!(route_message(false, &actions, IncomingKind::Error, lookup_t.as_ref()), Route::Drop);

    actions.remove(lookup_ids.action_id());
    assert_eq!(route_message(false, &actions, IncomingKind::GetPeersResponse, lookup_t.as_ref()), Route::Drop);
}

#[test]
fn requests_are_dropped_when_read_only() {
    let actions = TableActions::new();
    assert_eq!(route_message(false, &actions, IncomingKind::Request, b"aa"), Route::AnswerRequest);
    assert_eq!(route_message(true, &actions, IncomingKind::Request, b"aa"), Route::Drop);
}

#[test]
fn message_kind_follows_y_and_expectation() {
    assert_eq!(incoming_kind(Some(b"q"), ExpectedResponse::Nothing), IncomingKind::Request);
    assert_eq!(incoming_kind(Some(b"e"), ExpectedResponse::GetPeers), IncomingKind::Error);
    assert_eq!(incoming_kind(Some(b"r"), ExpectedResponse::GetPeers), IncomingKind::GetPeersResponse);
    assert_eq!(incoming_kind(Some(b"r"), ExpectedResponse::FindNode), IncomingKind::FindNodeResponse);
    assert_eq!(incoming_kind(Some(b"r"), ExpectedResponse::Nothing), IncomingKind::OtherResponse);
    assert_eq!(incoming_kind(Some(b"x"), ExpectedResponse::Nothing), IncomingKind::Invalid);
    assert_eq!(incoming_kind(Some(b"rr"), ExpectedResponse::FindNode), IncomingKind::Invalid);
    assert_eq!(incoming_kind(None, ExpectedResponse::FindNode), IncomingKind::Invalid);
}

#[test]
fn transaction_ids_of_one_action_differ() {
    let mut aids = AIDGenerator::new();
    let mut mids = aids.generate();
    let action = mids.action_id();
    let mut seen: Vec<Vec<u8>> = Vec::new();
    for _ in 0..100 {
        let t = mids.generate();
        assert_eq!(t.action_id(), action);
        assert!(!seen.contains(&t.as_ref().to_vec()));
        seen.push(t.as_ref().to_vec());
    }
    assert_eq!(mids.action_id(), action);
}
