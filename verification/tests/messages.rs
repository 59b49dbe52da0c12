use bip::bencode::options::BDecodeOpt;
use bip::bencode::reference::BencodeRef;
use bip::dht::error::DhtError;
use bip::dht::message::announce_peer::{AnnouncePeerRequest, AnnouncePeerResponse, ResponsePort};
use bip::dht::message::compact_info::{CompactNodeInfo, CompactValueInfo, LengthErrorKind};
use bip::dht::message::error::{ErrorCode, ErrorMessage};
use bip::dht::message::find_node::FindNodeRequest;
use bip::dht::message::ping::{PingRequest, PingResponse};
use bip::dht::message::request::{forward_compatible_find_node, RequestType, RequestValidate};
use bip::dht::routing::node::NodeAddr;

#[test]
fn positive_compact_nodes_empty() {
    let bytes = [0u8; 0];
    let compact_node = CompactNodeInfo::new(&bytes[..]).unwrap();

    assert_eq!(compact_node.entries().len(), 0);
}

#[test]
fn positive_compact_nodes_one() {
    let bytes = [1, 1, 1, 1, 1, 1, 1, 1, 1, 1, 1, 1, 1, 1, 1, 1, 1, 1, 1, 1, 192, 168, 0, 1, 170, 169];
    let compact_node = CompactNodeInfo::new(&bytes[..]).unwrap();

    let collected_info = compact_node.entries();
    assert_eq!(collected_info.len(), 1);

    assert_eq!(&collected_info[0].0[..], &bytes[0..20]);
    assert_eq!(collected_info[0].1, NodeAddr::V4([192, 168, 0, 1], 43689));
}

#[test]
fn positive_compact_nodes_many() {
    let bytes = [
        1, 1, 1, 1, 1, 1, 1, 1, 1, 1, 1, 1, 1, 1, 1, 1, 1, 1, 1, 1, 192, 168, 0, 1, 0, 240, 1, 1, 1, 1, 1, 1, 1, 1, 1, 1,
        1, 1, 1, 1, 1, 1, 1, 1, 1, 1, 192, 168, 0, 2, 0, 240,
    ];
    let compact_node = CompactNodeInfo::new(&bytes[..]).unwrap();

    let collected_info = compact_node.entries();
    assert_eq!(collected_info.len(), 2);

    assert_eq!(&collected_info[0].0[..], &bytes[0..20]);
    assert_eq!(collected_info[0].1, NodeAddr::V4([192, 168, 0, 1], 240));

    assert_eq!(&collected_info[1].0[..], &bytes[0..20]);
    assert_eq!(collected_info[1].1, NodeAddr::V4([192, 168, 0, 2], 240));
}

#[test]
fn positive_compact_values_empty() {
    let bencode_values: Vec<BencodeRef> = Vec::new();
    let compact_value = CompactValueInfo::new(&bencode_values[..]).unwrap();

    let collected_info = compact_value.addresses();

    assert!(collected_info.is_empty());
}

#[test]
fn positive_compact_values_one() {
    let bytes = [b'l', b'6', b':', 127, 0, 0, 1, (6881 >> 8) as u8, (6881 & 0x00FF) as u8, b'e'];
    let bencode_values = BencodeRef::decode(&bytes[..], BDecodeOpt::default()).unwrap();
    let compact_value = CompactValueInfo::new(bencode_values.list().unwrap()).unwrap();

    let collected_info = compact_value.addresses();
    assert_eq!(collected_info.len(), 1);

    assert_eq!(collected_info[0], NodeAddr::V4([127, 0, 0, 1], 6881));
}

#[test]
fn positive_compact_values_many() {
    let bytes = [
        b'l',
        b'6',
        b':',
        127,
        0,
        0,
        1,
        (6881 >> 8) as u8,
        (6881 & 0x00FF) as u8,
        b'6',
        b':',
        10,
        0,
        0,
        1,
        (6889 >> 8) as u8,
        (6889 & 0x00FF) as u8,
        b'e',
    ];
    let bencode_values = BencodeRef::decode(&bytes[..], BDecodeOpt::default()).unwrap();
    let compact_value = CompactValueInfo::new(bencode_values.list().unwrap()).unwrap();

    let collected_info = compact_value.addresses();
    assert_eq!(collected_info.len(), 2);

    assert_eq!(collected_info[0], NodeAddr::V4([127, 0, 0, 1], 6881));
    assert_eq!(collected_info[1], NodeAddr::V4([10, 0, 0, 1], 6889));
}

#[test]
fn compact_lengths_are_checked() {
    let err = CompactNodeInfo::new(&[0u8; 25]).unwrap_err();
    assert_eq!(err.kind, LengthErrorKind::LengthMultipleExpected);
    assert_eq!(err.length, 26);

    let bytes = b"l6:abcdef5:abcdee";
    let values = BencodeRef::decode(&bytes[..], BDecodeOpt::default()).unwrap();
    let err = CompactValueInfo::new(values.list().unwrap()).err().unwrap();
    assert_eq!(err.kind, LengthErrorKind::LengthExpected);
    assert_eq!(err.index, Some(1));
}

#[test]
fn error_code_numbers() {
    for (n, c) in [(201u8, ErrorCode::GenericError), (202, ErrorCode::ServerError), (203, ErrorCode::ProtocolError), (204, ErrorCode::MethodUnknown)] {
        assert_eq!(ErrorCode::new(n).unwrap(), c);
        assert_eq!(u8::from(c), n);
    }
    match ErrorCode::new(200) {
        Err(DhtError::InvalidResponse { details }) => assert_eq!(details, "Error Message Invalid Error Code 200"),
        other => panic!("unexpected {:?}", other),
    }
}

#[test]
fn error_message_encodes_and_parses() {
    let msg = ErrorMessage::new(b"aa".to_vec(), ErrorCode::ProtocolError, "A Protocol Error".to_owned());
    let bytes = msg.encode();
    assert_eq!(&bytes[..], &b"d1:eli203e16:A Protocol Errore1:t2:aa1:y1:ee"[..]);

    let root = BencodeRef::decode(&bytes[..], BDecodeOpt::default()).unwrap();
    let parsed = ErrorMessage::from_parts(root.dict().unwrap(), b"aa").unwrap();
    assert_eq!(parsed.error_code(), ErrorCode::ProtocolError);
    assert_eq!(parsed.error_message(), "A Protocol Error");
    assert_eq!(parsed.transaction_id(), b"aa");
}

#[test]
fn error_message_with_wrong_args_is_refused() {
    let bytes = b"d1:eli203ee1:t2:aa1:y1:ee";
    let root = BencodeRef::decode(&bytes[..], BDecodeOpt::default()).unwrap();
    match ErrorMessage::from_parts(root.dict().unwrap(), b"aa") {
        Err(DhtError::InvalidResponse { details }) => {
            assert_eq!(details, "Error Message Invalid Number Of Error Args: 1")
        },
        other => panic!("unexpected {:?}", other.err()),
    }
}

#[test]
fn announce_request_round_trip() {
    let node_id = [3u8; 20];
    let info_hash = [4u8; 20];
    let request = AnnouncePeerRequest::new(b"tt", &node_id, &info_hash, b"tok", ResponsePort::Explicit(6881)).unwrap();
    let bytes = request.encode();
    let expected: Vec<u8> = [
        &b"d1:ad2:id20:"[..],
        &node_id[..],
        &b"12:implied_porti0e9:info_hash20:"[..],
        &info_hash[..],
        &b"4:porti6881e5:token3:toke1:q13:announce_peer1:t2:tt1:y1:qe"[..],
    ]
    .concat();
    assert_eq!(bytes, expected);

    let root = BencodeRef::decode(&bytes[..], BDecodeOpt::default()).unwrap();
    let args = root.dict().unwrap().lookup(b"a").unwrap().dict().unwrap();
    let parsed = AnnouncePeerRequest::from_parts(args, b"tt").unwrap();
    assert_eq!(parsed, request);
    assert_eq!(parsed.port(), ResponsePort::Explicit(6881));
}

#[test]
fn announce_request_implied_port() {
    let node_id = [3u8; 20];
    let info_hash = [4u8; 20];
    let request = AnnouncePeerRequest::new(b"tt", &node_id, &info_hash, b"tok", ResponsePort::Implied).unwrap();
    let bytes = request.encode();
    let root = BencodeRef::decode(&bytes[..], BDecodeOpt::default()).unwrap();
    let args = root.dict().unwrap().lookup(b"a").unwrap().dict().unwrap();
    let parsed = AnnouncePeerRequest::from_parts(args, b"tt").unwrap();
    assert_eq!(parsed.port(), ResponsePort::Implied);
    assert_eq!(parsed.info_hash(), &info_hash[..]);
    assert_eq!(parsed.token(), b"tok");
    assert_eq!(parsed.node_id(), &node_id[..]);
    assert_eq!(parsed.transaction_id(), b"tt");
}

#[test]
fn announce_request_bad_node_id() {
    let node_id = [3u8; 19];
    let info_hash = [4u8; 20];
    match AnnouncePeerRequest::new(b"tt", &node_id, &info_hash, b"tok", ResponsePort::Implied) {
        Err(DhtError::InvalidRequest { msg }) => {
            assert_eq!(msg.error_code(), ErrorCode::ProtocolError);
            assert_eq!(msg.error_message(), "Node ID With Length 19 Is Not Valid");
            assert_eq!(msg.transaction_id(), b"tt");
        },
        other => panic!("unexpected {:?}", other.err()),
    }
}

#[test]
fn announce_request_missing_key() {
    let bytes = b"d2:id20:aaaaaaaaaaaaaaaaaaaae";
    let root = BencodeRef::decode(&bytes[..], BDecodeOpt::default()).unwrap();
    match AnnouncePeerRequest::from_parts(root.dict().unwrap(), b"tt") {
        Err(DhtError::InvalidRequest { msg }) => assert_eq!(msg.error_message(), "Missing Dictionary Key: info_hash"),
        other => panic!("unexpected {:?}", other.err()),
    }
}

#[test]
fn announce_response_round_trip() {
    let node_id = [5u8; 20];
    let response = AnnouncePeerResponse::new(b"xy", &node_id).unwrap();
    let bytes = response.encode();
    let expected: Vec<u8> = [&b"d1:rd2:id20:"[..], &node_id[..], &b"e1:t2:xy1:y1:re"[..]].concat();
    assert_eq!(bytes, expected);

    let root = BencodeRef::decode(&bytes[..], BDecodeOpt::default()).unwrap();
    let args = root.dict().unwrap().lookup(b"r").unwrap().dict().unwrap();
    let parsed = AnnouncePeerResponse::from_parts(args, b"xy").unwrap();
    assert_eq!(parsed, response);
    assert_eq!(parsed.node_id(), &node_id[..]);
    assert_eq!(parsed.transaction_id(), b"xy");
}

#[test]
fn ping_round_trip() {
    let node_id = [6u8; 20];
    let request = PingRequest::new(b"pp", node_id);
    let bytes = request.encode();
    let expected: Vec<u8> = [&b"d1:ad2:id20:"[..], &node_id[..], &b"e1:q4:ping1:t2:pp1:y1:qe"[..]].concat();
    assert_eq!(bytes, expected);
    let root = BencodeRef::decode(&bytes[..], BDecodeOpt::default()).unwrap();
    let args = root.dict().unwrap().lookup(b"a").unwrap().dict().unwrap();
    assert_eq!(PingRequest::from_parts(args, b"pp").unwrap(), request);

    let response = PingResponse::new(b"pp", node_id);
    let bytes = response.encode();
    let expected: Vec<u8> = [&b"d1:rd2:id20:"[..], &node_id[..], &b"e1:t2:pp1:y1:re"[..]].concat();
    assert_eq!(bytes, expected);
    let root = BencodeRef::decode(&bytes[..], BDecodeOpt::default()).unwrap();
    let args = root.dict().unwrap().lookup(b"r").unwrap().dict().unwrap();
    let parsed = PingResponse::from_parts(args, b"pp").unwrap();
    assert_eq!(parsed.node_id(), node_id);
    assert_eq!(parsed.transaction_id(), b"pp");
}

#[test]
fn find_node_round_trip() {
    let node_id = [7u8; 20];
    let target = [8u8; 20];
    let request = FindNodeRequest::new(b"ff", node_id, target);
    let bytes = request.encode();
    let expected: Vec<u8> =
        [&b"d1:ad2:id20:"[..], &node_id[..], &b"6:target20:"[..], &target[..], &b"e1:q9:find_node1:t2:ff1:y1:qe"[..]]
            .concat();
    assert_eq!(bytes, expected);
    let root = BencodeRef::decode(&bytes[..], BDecodeOpt::default()).unwrap();
    let args = root.dict().unwrap().lookup(b"a").unwrap().dict().unwrap();
    let parsed = FindNodeRequest::from_parts(args, b"ff", b"target").unwrap();
    assert_eq!(parsed, request);
    assert_eq!(parsed.target_id(), target);
    assert_eq!(forward_compatible_find_node(args), Some("target"));
}

#[test]
fn request_validate_checks_lengths() {
    let validate = RequestValidate::new(b"tt");
    assert_eq!(validate.validate_node_id(&[1u8; 20]).unwrap(), [1u8; 20]);
    assert!(validate.validate_node_id(&[1u8; 21]).is_err());
}

#[test]
fn request_type_reads_known_methods() {
    let node_id = [6u8; 20];
    let bytes = PingRequest::new(b"pp", node_id).encode();
    let root = BencodeRef::decode(&bytes[..], BDecodeOpt::default()).unwrap();
    let dict = root.dict().unwrap();
    match RequestType::from_parts(dict, b"pp", b"ping").unwrap() {
        RequestType::Ping(p) => assert_eq!(p.node_id(), node_id),
        _ => panic!("expected a ping request"),
    }

    let target = [9u8; 20];
    let bytes = FindNodeRequest::new(b"ff", node_id, target).encode();
    let root = BencodeRef::decode(&bytes[..], BDecodeOpt::default()).unwrap();
    let request = RequestType::from_parts(root.dict().unwrap(), b"ff", b"find_node").unwrap();
    assert_eq!(request.transaction_id(), b"ff");
    match request {
        RequestType::FindNode(f) => assert_eq!(f.target_id(), target),
        _ => panic!("expected a find node request"),
    }
}

#[test]
fn request_type_reads_unknown_method_with_target_as_find_node() {
    let node_id = [6u8; 20];
    let target = [9u8; 20];
    let bytes = FindNodeRequest::new(b"ff", node_id, target).encode();
    let root = BencodeRef::decode(&bytes[..], BDecodeOpt::default()).unwrap();
    match RequestType::from_parts(root.dict().unwrap(), b"ff", b"vote").unwrap() {
        RequestType::FindNode(f) => assert_eq!(f.target_id(), target),
        _ => panic!("expected a find node request"),
    }
}

#[test]
fn request_type_refuses_unknown_method() {
    let node_id = [6u8; 20];
    let bytes = PingRequest::new(b"pp", node_id).encode();
    let root = BencodeRef::decode(&bytes[..], BDecodeOpt::default()).unwrap();
    match RequestType::from_parts(root.dict().unwrap(), b"pp", b"vote") {
        Err(DhtError::InvalidRequest { msg }) => {
            assert_eq!(msg.error_code(), ErrorCode::MethodUnknown);
            assert_eq!(msg.error_message(), "Received Unknown Request Method: vote");
        },
        _ => panic!("expected an unknown method error"),
    }
}

#[test]
fn request_type_needs_arguments() {
    let bytes = b"d1:q4:ping1:t2:pp1:y1:qe";
    let root = BencodeRef::decode(&bytes[..], BDecodeOpt::default()).unwrap();
    match RequestType::from_parts(root.dict().unwrap(), b"pp", b"ping") {
        Err(DhtError::InvalidRequest { msg }) => {
            assert_eq!(msg.error_code(), ErrorCode::ProtocolError);
            assert_eq!(msg.error_message(), "Missing Dictionary Key: a");
        },
        _ => panic!("expected a missing key error"),
    }
}

#[test]
fn compact_iterators_walk_in_order() {
    let bytes = [
        1, 1, 1, 1, 1, 1, 1, 1, 1, 1, 1, 1, 1, 1, 1, 1, 1, 1, 1, 1, 192, 168, 0, 1, 0, 240, 2, 2, 2, 2, 2, 2, 2, 2, 2, 2,
        2, 2, 2, 2, 2, 2, 2, 2, 2, 2, 192, 168, 0, 2, 0, 241,
    ];
    let mut nodes = CompactNodeInfo::new(&bytes[..]).unwrap().into_iter();
    assert_eq!(nodes.next(), Some(([1u8; 20], NodeAddr::V4([192, 168, 0, 1], 240))));
    assert_eq!(nodes.next(), Some(([2u8; 20], NodeAddr::V4([192, 168, 0, 2], 241))));
    assert_eq!(nodes.next(), None);
    assert_eq!(nodes.next(), None);

    let bytes = [b'l', b'6', b':', 127, 0, 0, 1, 0x1a, 0xe1, b'6', b':', 10, 0, 0, 1, 0x1a, 0xe9, b'e'];
    let values = BencodeRef::decode(&bytes[..], BDecodeOpt::default()).unwrap();
    let mut addrs = CompactValueInfo::new(values.list().unwrap()).unwrap().into_iter();
    assert_eq!(addrs.next(), Some(NodeAddr::V4([127, 0, 0, 1], 6881)));
    assert_eq!(addrs.next(), Some(NodeAddr::V4([10, 0, 0, 1], 6889)));
    assert_eq!(addrs.next(), None);
}
