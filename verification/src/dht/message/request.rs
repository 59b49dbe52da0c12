use vstd::prelude::*;
use vstd::string::StringExecFns;
use vstd::utf8::{decode_utf8, valid_utf8};

use crate::bencode::convert::{dict_entry, entry_value, lookup_and_convert_dict, BencodeConvert};
use crate::bencode::dict::BDict;
use crate::bencode::error::{BencodeConvertError, ConvertFailure};
use crate::bencode::reference::BencodeRef;
use crate::bencode::spec::RefView;
use crate::dht::error::{DhtError, DhtFailure};
use crate::dht::message::error::{ErrorCode, ErrorMessage, ErrorMessageView};
use crate::dht::message::announce_peer::{announce_from_parts, AnnouncePeerRequest, AnnouncePeerRequestView};
use crate::dht::message::find_node::{id_entry, FindNodeRequest};
use crate::dht::message::get_peers::GetPeersRequest;
use crate::dht::message::ping::{ping_node_id, PingRequest};
use crate::dht::message::put_data::PutDataRequest;
use crate::dht::message::{
    announce_peer_key, announce_peer_key_bytes, find_node_key, find_node_key_bytes, get_peers_key, get_peers_key_bytes, info_hash_key,
    info_hash_key_bytes, node_id_key, ping_key, ping_key_bytes, request_args_key, request_args_key_bytes, target_id_key,
    target_id_key_bytes, NODE_ID_LEN,
};
use crate::dht::routing::node::NodeId;
use crate::dht::text::{decimal_chars, push_decimal_text, text_with_key};

verus! {

/// The text of a key: its bytes read as UTF-8, or nothing when they are not.
pub open spec fn key_text(key: Seq<u8>) -> Seq<char> {
    if valid_utf8(key) {
        decode_utf8(key)
    } else {
        Seq::empty()
    }
}

/// The text of the error message answering a request whose value could not be read.
pub open spec fn convert_failure_text(f: ConvertFailure) -> Seq<char> {
    match f {
        ConvertFailure::MissingKey(k) => "Missing Dictionary Key: "@ + key_text(k),
        ConvertFailure::WrongType(k, _) => "Wrong Type For Key: "@ + key_text(k),
    }
}

/// The error for an invalid request of transaction `trans_id`, answered with a protocol
/// error with text `text`.
pub open spec fn request_failure(trans_id: Seq<u8>, text: Seq<char>) -> DhtFailure {
    DhtFailure::InvalidRequest(ErrorMessageView { trans_id, code: ErrorCode::ProtocolError, message: text })
}

/// The text of the error for a node id of length `len`.
pub open spec fn node_id_length_text(len: nat) -> Seq<char> {
    "Node ID With Length "@ + decimal_chars(len) + " Is Not Valid"@
}

/// Reading the bytes under `key` in `entries`.
pub open spec fn bytes_entry(entries: Seq<(Seq<u8>, BencodeRef)>, key: Seq<u8>) -> Result<Seq<u8>, ConvertFailure> {
    match entry_value(entries, key) {
        None => Err(ConvertFailure::MissingKey(key)),
        Some(RefView::Bytes(b, _)) => Ok(b),
        Some(_) => Err(ConvertFailure::WrongType(key, crate::bencode::convert::bytes_name())),
    }
}

/// Reading the integer under `key` in `entries`.
pub open spec fn int_entry(entries: Seq<(Seq<u8>, BencodeRef)>, key: Seq<u8>) -> Result<int, ConvertFailure> {
    match entry_value(entries, key) {
        None => Err(ConvertFailure::MissingKey(key)),
        Some(RefView::Int(n, _)) => Ok(n),
        Some(_) => Err(ConvertFailure::WrongType(key, crate::bencode::convert::integer_name())),
    }
}

/// Checks the values of a request of one transaction, turning what is wrong into the
/// error message to answer it with.
pub struct RequestValidate<'a> {
    trans_id: &'a [u8],
}

impl<'a> RequestValidate<'a> {
    /// The transaction id of the request checked.
    pub closed spec fn trans_id(&self) -> Seq<u8> {
        self.trans_id@
    }

    /// A checker for the request of transaction `trans_id`.
    pub fn new(trans_id: &'a [u8]) -> (v: RequestValidate<'a>)
        ensures
            v.trans_id() == trans_id@,
    {
        RequestValidate { trans_id }
    }

    /// `node_id` as a node id: an invalid request error unless it has the length of one.
    pub fn validate_node_id(&self, node_id: &[u8]) -> (r: Result<NodeId, DhtError>)
        ensures
            node_id@.len() == NODE_ID_LEN ==> (r matches Ok(id) && id@ == node_id@),
            node_id@.len() != NODE_ID_LEN ==> (r matches Err(e) && e@ == request_failure(
                self.trans_id(),
                node_id_length_text(node_id@.len()),
            )),
    {
        if node_id.len() != NODE_ID_LEN {
            let mut text = String::from_str("Node ID With Length ");
            push_decimal_text(&mut text, node_id.len() as u64);
            text.append(" Is Not Valid");
            let msg = ErrorMessage::new(vstd::slice::slice_to_vec(self.trans_id), ErrorCode::ProtocolError, text);
            return Err(DhtError::InvalidRequest { msg });
        }
        let id: NodeId = [
            node_id[0],
            node_id[1],
            node_id[2],
            node_id[3],
            node_id[4],
            node_id[5],
            node_id[6],
            node_id[7],
            node_id[8],
            node_id[9],
            node_id[10],
            node_id[11],
            node_id[12],
            node_id[13],
            node_id[14],
            node_id[15],
            node_id[16],
            node_id[17],
            node_id[18],
            node_id[19],
        ];
        assert(id@ =~= node_id@);
        Ok(id)
    }
}

impl<'a> BencodeConvert for RequestValidate<'a> {
    type Error = DhtError;

    fn handle_error(&self, error: BencodeConvertError) -> (r: DhtError)
        ensures
            r@ == request_failure(self.trans_id(), convert_failure_text(error@)),
    {
        let text = match &error {
            BencodeConvertError::MissingKey { key } => text_with_key("Missing Dictionary Key: ", key.as_slice()),
            BencodeConvertError::WrongType { key, .. } => text_with_key("Wrong Type For Key: ", key.as_slice()),
        };
        let msg = ErrorMessage::new(vstd::slice::slice_to_vec(self.trans_id), ErrorCode::ProtocolError, text);
        DhtError::InvalidRequest { msg }
    }
}

/// Method name of a data lookup (`get`).
pub open spec fn get_data_key() -> Seq<u8> {
    seq![103u8, 101u8, 116u8]
}

/// Method name of a data store (`put`).
pub open spec fn put_data_key() -> Seq<u8> {
    seq![112u8, 117u8, 116u8]
}

/// The model of a request read from a message.
pub enum RequestView {
    Ping { trans_id: Seq<u8>, node_id: Seq<u8> },
    FindNode { trans_id: Seq<u8>, node_id: Seq<u8>, target_id: Seq<u8> },
    GetPeers { trans_id: Seq<u8>, node_id: Seq<u8>, info_hash: Seq<u8> },
    AnnouncePeer(AnnouncePeerRequestView),
    PutData { trans_id: Seq<u8> },
}

/// A request read from a message, by its method.
pub enum RequestType<'a> {
    Ping(PingRequest<'a>),
    FindNode(FindNodeRequest<'a>),
    GetPeers(GetPeersRequest<'a>),
    AnnouncePeer(AnnouncePeerRequest<'a>),
    PutData(PutDataRequest<'a>),
}

impl<'a> View for RequestType<'a> {
    type V = RequestView;

    open spec fn view(&self) -> RequestView {
        match self {
            RequestType::Ping(p) => RequestView::Ping { trans_id: p.trans_id_view(), node_id: p.node_id_view() },
            RequestType::FindNode(f) => RequestView::FindNode {
                trans_id: f.trans_id_view(),
                node_id: f.node_id_view(),
                target_id: f.target_id_view(),
            },
            RequestType::GetPeers(g) => RequestView::GetPeers {
                trans_id: g.trans_id_view(),
                node_id: g.node_id_view(),
                info_hash: g.info_hash_view(),
            },
            RequestType::AnnouncePeer(a) => RequestView::AnnouncePeer(a@),
            RequestType::PutData(p) => RequestView::PutData { trans_id: p.trans_id_view() },
        }
    }
}

/// Reading a find-node request from its arguments `args`: the node id under `id` and the
/// target under `target_key`.
pub open spec fn find_node_parts(args: Seq<(Seq<u8>, BencodeRef)>, trans_id: Seq<u8>, target_key: Seq<u8>) -> Result<
    RequestView,
    DhtFailure,
> {
    match id_entry(args, node_id_key(), trans_id) {
        Err(f) => Err(f),
        Ok(node_id) => match id_entry(args, target_key, trans_id) {
            Err(f) => Err(f),
            Ok(target_id) => Ok(RequestView::FindNode { trans_id, node_id, target_id }),
        },
    }
}

/// The text of the error answering a request of the unknown method `method`.
pub open spec fn unknown_method_text(method: Seq<u8>) -> Seq<char> {
    "Received Unknown Request Method: "@ + key_text(method)
}

/// Reading a request of method `rqst_type` and transaction `trans_id` from the dictionary
/// `root` of its message: its arguments are the dictionary under `a`. A method that is not
/// known is read as a find-node request when its arguments hold a `target` or, failing that,
/// an `info_hash`; otherwise it is answered as an unknown method.
pub open spec fn request_from_parts(root: Seq<(Seq<u8>, BencodeRef)>, trans_id: Seq<u8>, rqst_type: Seq<u8>) -> Result<
    RequestView,
    DhtFailure,
> {
    match dict_entry(root, request_args_key()) {
        Err(f) => Err(request_failure(trans_id, convert_failure_text(f))),
        Ok(args) => if rqst_type == ping_key() {
            match ping_node_id(args, trans_id) {
                Ok(node_id) => Ok(RequestView::Ping { trans_id, node_id }),
                Err(f) => Err(f),
            }
        } else if rqst_type == find_node_key() {
            find_node_parts(args, trans_id, target_id_key())
        } else if rqst_type == get_peers_key() {
            match id_entry(args, node_id_key(), trans_id) {
                Err(f) => Err(f),
                Ok(node_id) => match id_entry(args, info_hash_key(), trans_id) {
                    Err(f) => Err(f),
                    Ok(info_hash) => Ok(RequestView::GetPeers { trans_id, node_id, info_hash }),
                },
            }
        } else if rqst_type == announce_peer_key() {
            match announce_from_parts(args, trans_id) {
                Ok(v) => Ok(RequestView::AnnouncePeer(v)),
                Err(f) => Err(f),
            }
        } else if entry_value(args, target_id_key()) is Some {
            find_node_parts(args, trans_id, target_id_key())
        } else if entry_value(args, info_hash_key()) is Some {
            find_node_parts(args, trans_id, info_hash_key())
        } else {
            Err(
                DhtFailure::InvalidRequest(
                    ErrorMessageView { trans_id, code: ErrorCode::MethodUnknown, message: unknown_method_text(rqst_type) },
                ),
            )
        },
    }
}

impl<'a> RequestType<'a> {
    /// Reads a request of method `rqst_type` from the dictionary `root` of its message (see
    /// `request_from_parts`). The data lookups and stores are not read here.
    pub fn from_parts(root: &BDict<BencodeRef<'a>>, trans_id: &'a [u8], rqst_type: &[u8]) -> (r: Result<
        RequestType<'a>,
        DhtError,
    >)
        requires
            rqst_type@ != get_data_key(),
            rqst_type@ != put_data_key(),
        ensures
            match request_from_parts(root.kv(), trans_id@, rqst_type@) {
                Ok(v) => r matches Ok(m) && m@ == v,
                Err(f) => r matches Err(e) && e@ == f,
            },
    {
        let validate = RequestValidate::new(trans_id);
        let rqst_root = match lookup_and_convert_dict(root, request_args_key_bytes().as_slice()) {
            Ok(d) => d,
            Err(e) => {
                return Err(validate.handle_error(e));
            },
        };
        if crate::bencode::order::bytes_equal(rqst_type, ping_key_bytes().as_slice()) {
            match PingRequest::from_parts(rqst_root, trans_id) {
                Ok(p) => Ok(RequestType::Ping(p)),
                Err(e) => Err(e),
            }
        } else if crate::bencode::order::bytes_equal(rqst_type, find_node_key_bytes().as_slice()) {
            match FindNodeRequest::from_parts(rqst_root, trans_id, target_id_key_bytes().as_slice()) {
                Ok(f) => Ok(RequestType::FindNode(f)),
                Err(e) => Err(e),
            }
        } else if crate::bencode::order::bytes_equal(rqst_type, get_peers_key_bytes().as_slice()) {
            match GetPeersRequest::from_parts(rqst_root, trans_id) {
                Ok(g) => Ok(RequestType::GetPeers(g)),
                Err(e) => Err(e),
            }
        } else if crate::bencode::order::bytes_equal(rqst_type, announce_peer_key_bytes().as_slice()) {
            match AnnouncePeerRequest::from_parts(rqst_root, trans_id) {
                Ok(a) => Ok(RequestType::AnnouncePeer(a)),
                Err(e) => Err(e),
            }
        } else {
            match forward_compatible_find_node(rqst_root) {
                Some(_) => {
                    let key = if rqst_root.lookup(target_id_key_bytes().as_slice()).is_some() {
                        target_id_key_bytes()
                    } else {
                        info_hash_key_bytes()
                    };
                    match FindNodeRequest::from_parts(rqst_root, trans_id, key.as_slice()) {
                        Ok(f) => Ok(RequestType::FindNode(f)),
                        Err(e) => Err(e),
                    }
                },
                None => {
                    let text = text_with_key("Received Unknown Request Method: ", rqst_type);
                    let msg = ErrorMessage::new(vstd::slice::slice_to_vec(trans_id), ErrorCode::MethodUnknown, text);
                    Err(DhtError::InvalidRequest { msg })
                },
            }
        }
    }

    /// The transaction id of the request.
    pub fn transaction_id(&self) -> (r: &'a [u8])
        ensures
            r@ == match self@ {
                RequestView::Ping { trans_id, .. } => trans_id,
                RequestView::FindNode { trans_id, .. } => trans_id,
                RequestView::GetPeers { trans_id, .. } => trans_id,
                RequestView::AnnouncePeer(v) => v.trans_id,
                RequestView::PutData { trans_id } => trans_id,
            },
    {
        match self {
            RequestType::Ping(p) => p.transaction_id(),
            RequestType::FindNode(f) => f.transaction_id(),
            RequestType::GetPeers(g) => g.transaction_id(),
            RequestType::AnnouncePeer(a) => a.transaction_id(),
            RequestType::PutData(p) => p.transaction_id(),
        }
    }
}

/// The key under which an unknown request names the id it looks for, if any: `target`
/// when present, else `info_hash` when present.
pub fn forward_compatible_find_node(rqst_root: &BDict<BencodeRef>) -> (r: Option<&'static str>)
    ensures
        entry_value(rqst_root.kv(), target_id_key()) is Some ==> (r matches Some(k) && k@ == "target"@),
        entry_value(rqst_root.kv(), target_id_key()) is None && entry_value(rqst_root.kv(), info_hash_key())
            is Some ==> (r matches Some(k) && k@ == "info_hash"@),
        entry_value(rqst_root.kv(), target_id_key()) is None && entry_value(rqst_root.kv(), info_hash_key())
            is None ==> r is None,
{
    let target = target_id_key_bytes();
    let info_hash = info_hash_key_bytes();
    match (rqst_root.lookup(target.as_slice()), rqst_root.lookup(info_hash.as_slice())) {
        (Some(_), _) => Some("target"),
        (_, Some(_)) => Some("info_hash"),
        (None, None) => None,
    }
}

} // verus!
