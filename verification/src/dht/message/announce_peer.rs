use vstd::prelude::*;

use crate::bencode::convert::{entry_value, lookup_and_convert_bytes, lookup_and_convert_int, BencodeConvert};
use crate::bencode::dict::BDict;
use crate::bencode::encode::{lemma_encode_entries_push, push_bytes, push_int_text};
use crate::bencode::reference::BencodeRef;
use crate::bencode::spec::{encode_entries, encode_value, BValue, RefView};
use crate::dht::error::{DhtError, DhtFailure};
use crate::dht::message::request::{
    bytes_entry, convert_failure_text, int_entry, node_id_length_text, request_failure, RequestValidate,
};
use crate::dht::message::{
    announce_peer_key, announce_peer_key_bytes, implied_port_key, implied_port_key_bytes, info_hash_key,
    info_hash_key_bytes, message_type_key, message_type_key_bytes, node_id_key, node_id_key_bytes, port_key,
    port_key_bytes, request_args_key, request_args_key_bytes, request_type_key, request_type_key_bytes,
    response_type_key, response_type_key_bytes, token_key, token_key_bytes, transaction_id_key,
    transaction_id_key_bytes, NODE_ID_LEN,
};

verus! {

/// The port an announcing peer can be reached at.
#[derive(Copy, Clone, PartialEq, Eq, Structural, Hash, Debug)]
pub enum ResponsePort {
    /// The source port of the announce.
    Implied,
    /// The port given.
    Explicit(u16),
}

/// Model of an announce request.
pub struct AnnouncePeerRequestView {
    /// Transaction id.
    pub trans_id: Seq<u8>,
    /// Id of the announcing node.
    pub node_id: Seq<u8>,
    /// Info hash announced.
    pub info_hash: Seq<u8>,
    /// Token the announcing node got from us.
    pub token: Seq<u8>,
    /// Port of the announcing peer.
    pub port: ResponsePort,
}

/// An announce request with these parts: an invalid request error unless the node id and
/// the info hash have the length of a node id.
pub open spec fn announce_new(
    trans_id: Seq<u8>,
    node_id: Seq<u8>,
    info_hash: Seq<u8>,
    token: Seq<u8>,
    port: ResponsePort,
) -> Result<AnnouncePeerRequestView, DhtFailure> {
    if node_id.len() != NODE_ID_LEN {
        Err(request_failure(trans_id, node_id_length_text(node_id.len())))
    } else if info_hash.len() != NODE_ID_LEN {
        Err(request_failure(trans_id, node_id_length_text(info_hash.len())))
    } else {
        Ok(AnnouncePeerRequestView { trans_id, node_id, info_hash, token, port })
    }
}

/// Reading an announce request from its argument entries: the node id, info hash and token
/// must be byte strings; the port is implied when `implied_port` is a nonzero integer, else
/// it is the low 16 bits of the integer `port`.
pub open spec fn announce_from_parts(entries: Seq<(Seq<u8>, BencodeRef)>, trans_id: Seq<u8>) -> Result<
    AnnouncePeerRequestView,
    DhtFailure,
> {
    match bytes_entry(entries, node_id_key()) {
        Err(f) => Err(request_failure(trans_id, convert_failure_text(f))),
        Ok(node_id) => match bytes_entry(entries, info_hash_key()) {
            Err(f) => Err(request_failure(trans_id, convert_failure_text(f))),
            Ok(info_hash) => match bytes_entry(entries, token_key()) {
                Err(f) => Err(request_failure(trans_id, convert_failure_text(f))),
                Ok(token) => {
                    let implied = match entry_value(entries, implied_port_key()) {
                        Some(RefView::Int(n, _)) => n != 0,
                        _ => false,
                    };
                    if implied {
                        announce_new(trans_id, node_id, info_hash, token, ResponsePort::Implied)
                    } else {
                        match int_entry(entries, port_key()) {
                            Err(f) => Err(request_failure(trans_id, convert_failure_text(f))),
                            Ok(p) => announce_new(trans_id, node_id, info_hash, token, ResponsePort::Explicit((p as i64) as u16)),
                        }
                    }
                },
            },
        },
    }
}

/// The bencode value of an announce request. The port is given also when it is implied
/// (as zero), for clients that expect it.
pub open spec fn announce_request_value(m: AnnouncePeerRequestView) -> BValue {
    let (port, implied) = match m.port {
        ResponsePort::Implied => (0int, 1int),
        ResponsePort::Explicit(n) => (n as int, 0int),
    };
    BValue::Dict(
        seq![
            (
                request_args_key(),
                BValue::Dict(
                    seq![
                        (node_id_key(), BValue::Bytes(m.node_id)),
                        (implied_port_key(), BValue::Int(implied)),
                        (info_hash_key(), BValue::Bytes(m.info_hash)),
                        (port_key(), BValue::Int(port)),
                        (token_key(), BValue::Bytes(m.token)),
                    ],
                ),
            ),
            (request_type_key(), BValue::Bytes(announce_peer_key())),
            (transaction_id_key(), BValue::Bytes(m.trans_id)),
            (message_type_key(), BValue::Bytes(request_type_key())),
        ],
    )
}

/// A request announcing that a peer downloads the torrent with some info hash.
#[derive(Copy, Clone, PartialEq, Eq, Hash, Debug)]
pub struct AnnouncePeerRequest<'a> {
    trans_id: &'a [u8],
    node_id: &'a [u8],
    info_hash: &'a [u8],
    token: &'a [u8],
    port: ResponsePort,
}

impl<'a> View for AnnouncePeerRequest<'a> {
    type V = AnnouncePeerRequestView;

    closed spec fn view(&self) -> AnnouncePeerRequestView {
        AnnouncePeerRequestView {
            trans_id: self.trans_id@,
            node_id: self.node_id@,
            info_hash: self.info_hash@,
            token: self.token@,
            port: self.port,
        }
    }
}

impl<'a> AnnouncePeerRequest<'a> {
    /// The announcing node's id and the info hash have the length of a node id.
    #[verifier::type_invariant]
    spec fn ids_have_length(self) -> bool {
        self.node_id@.len() == NODE_ID_LEN && self.info_hash@.len() == NODE_ID_LEN
    }

    /// An announce request (see `announce_new`).
    pub fn new(trans_id: &'a [u8], node_id: &'a [u8], info_hash: &'a [u8], token: &'a [u8], port: ResponsePort) -> (r: Result<
        AnnouncePeerRequest<'a>,
        DhtError,
    >)
        ensures
            match announce_new(trans_id@, node_id@, info_hash@, token@, port) {
                Ok(v) => r matches Ok(m) && m@ == v,
                Err(f) => r matches Err(e) && e@ == f,
            },
    {
        let validate = RequestValidate::new(trans_id);
        validate.validate_node_id(node_id)?;
        validate.validate_node_id(info_hash)?;
        Ok(AnnouncePeerRequest { trans_id, node_id, info_hash, token, port })
    }

    /// Reads an announce request from its argument dictionary (see `announce_from_parts`).
    pub fn from_parts(rqst_root: &BDict<BencodeRef<'a>>, trans_id: &'a [u8]) -> (r: Result<AnnouncePeerRequest<'a>, DhtError>)
        ensures
            match announce_from_parts(rqst_root.kv(), trans_id@) {
                Ok(v) => r matches Ok(m) && m@ == v,
                Err(f) => r matches Err(e) && e@ == f,
            },
    {
        let validate = RequestValidate::new(trans_id);
        let node_id = match lookup_and_convert_bytes(rqst_root, node_id_key_bytes().as_slice()) {
            Ok(b) => b,
            Err(e) => {
                return Err(validate.handle_error(e));
            },
        };
        let info_hash = match lookup_and_convert_bytes(rqst_root, info_hash_key_bytes().as_slice()) {
            Ok(b) => b,
            Err(e) => {
                return Err(validate.handle_error(e));
            },
        };
        let token = match lookup_and_convert_bytes(rqst_root, token_key_bytes().as_slice()) {
            Ok(b) => b,
            Err(e) => {
                return Err(validate.handle_error(e));
            },
        };
        let port = lookup_and_convert_int(rqst_root, port_key_bytes().as_slice());
        let implied = match rqst_root.lookup(implied_port_key_bytes().as_slice()) {
            Some(v) => match v.int_value() {
                Some(n) => n != 0,
                None => false,
            },
            None => false,
        };
        let response_port = if implied {
            ResponsePort::Implied
        } else {
            match port {
                Ok(p) => ResponsePort::Explicit(p as u16),
                Err(e) => {
                    return Err(validate.handle_error(e));
                },
            }
        };
        AnnouncePeerRequest::new(trans_id, node_id, info_hash, token, response_port)
    }

    /// The transaction id.
    pub fn transaction_id(&self) -> (r: &'a [u8])
        ensures
            r@ == self@.trans_id,
    {
        self.trans_id
    }

    /// The id of the announcing node.
    pub fn node_id(&self) -> (r: &'a [u8])
        ensures
            r@ == self@.node_id,
            r@.len() == NODE_ID_LEN,
    {
        proof {
            use_type_invariant(self);
        }
        self.node_id
    }

    /// The info hash announced.
    pub fn info_hash(&self) -> (r: &'a [u8])
        ensures
            r@ == self@.info_hash,
            r@.len() == NODE_ID_LEN,
    {
        proof {
            use_type_invariant(self);
        }
        self.info_hash
    }

    /// The token the announcing node got from us.
    pub fn token(&self) -> (r: &'a [u8])
        ensures
            r@ == self@.token,
    {
        self.token
    }

    /// The port of the announcing peer.
    pub fn port(&self) -> (r: ResponsePort)
        ensures
            r == self@.port,
    {
        self.port
    }

    /// The bencode of the request (see `announce_request_value`).
    pub fn encode(&self) -> (out: Vec<u8>)
        ensures
            out@ == encode_value(announce_request_value(self@)),
    {
        let ghost v = announce_request_value(self@);
        let ghost outer = v->Dict_0;
        let mut out: Vec<u8> = Vec::new();
        out.push(100u8);
        push_bytes(request_args_key_bytes().as_slice(), &mut out);
        self.encode_args(&mut out);
        proof {
            lemma_encode_entries_push(Seq::empty(), outer[0].0, outer[0].1);
            assert(Seq::<(Seq<u8>, BValue)>::empty().push(outer[0]) =~= outer.take(1));
            assert(out@ =~= seq![100u8] + encode_entries(outer.take(1)));
        }
        push_bytes(request_type_key_bytes().as_slice(), &mut out);
        push_bytes(announce_peer_key_bytes().as_slice(), &mut out);
        proof {
            lemma_encode_entries_push(outer.take(1), outer[1].0, outer[1].1);
            assert(outer.take(1).push(outer[1]) =~= outer.take(2));
            assert(out@ =~= seq![100u8] + encode_entries(outer.take(2)));
        }
        push_bytes(transaction_id_key_bytes().as_slice(), &mut out);
        push_bytes(self.trans_id, &mut out);
        proof {
            lemma_encode_entries_push(outer.take(2), outer[2].0, outer[2].1);
            assert(outer.take(2).push(outer[2]) =~= outer.take(3));
            assert(out@ =~= seq![100u8] + encode_entries(outer.take(3)));
        }
        push_bytes(message_type_key_bytes().as_slice(), &mut out);
        push_bytes(request_type_key_bytes().as_slice(), &mut out);
        proof {
            lemma_encode_entries_push(outer.take(3), outer[3].0, outer[3].1);
            assert(outer.take(3).push(outer[3]) =~= outer);
            assert(out@ =~= seq![100u8] + encode_entries(outer));
        }
        out.push(101u8);
        assert(out@ =~= encode_value(v));
        out
    }

    /// Appends the bencode of the request's arguments.
    #[verifier::rlimit(40)]
    fn encode_args(&self, out: &mut Vec<u8>)
        ensures
            final(out)@ == old(out)@ + encode_value(announce_request_value(self@)->Dict_0[0].1),
    {
        let ghost start = out@;
        let ghost inner = announce_request_value(self@)->Dict_0[0].1->Dict_0;
        let (displayed_port, implied_value): (u16, i64) = match self.port {
            ResponsePort::Implied => (0, 1),
            ResponsePort::Explicit(n) => (n, 0),
        };
        out.push(100u8);
        push_bytes(node_id_key_bytes().as_slice(), &mut *out);
        push_bytes(self.node_id, &mut *out);
        proof {
            lemma_encode_entries_push(Seq::empty(), inner[0].0, inner[0].1);
            assert(Seq::<(Seq<u8>, BValue)>::empty().push(inner[0]) =~= inner.take(1));
            assert(out@ =~= start + seq![100u8] + encode_entries(inner.take(1)));
        }
        push_bytes(implied_port_key_bytes().as_slice(), &mut *out);
        out.push(105u8);
        push_int_text(implied_value, &mut *out);
        out.push(101u8);
        proof {
            lemma_encode_entries_push(inner.take(1), inner[1].0, inner[1].1);
            assert(inner.take(1).push(inner[1]) =~= inner.take(2));
            assert(out@ =~= start + seq![100u8] + encode_entries(inner.take(2)));
        }
        push_bytes(info_hash_key_bytes().as_slice(), &mut *out);
        push_bytes(self.info_hash, &mut *out);
        proof {
            lemma_encode_entries_push(inner.take(2), inner[2].0, inner[2].1);
            assert(inner.take(2).push(inner[2]) =~= inner.take(3));
            assert(out@ =~= start + seq![100u8] + encode_entries(inner.take(3)));
        }
        push_bytes(port_key_bytes().as_slice(), &mut *out);
        out.push(105u8);
        push_int_text(displayed_port as i64, &mut *out);
        out.push(101u8);
        proof {
            lemma_encode_entries_push(inner.take(3), inner[3].0, inner[3].1);
            assert(inner.take(3).push(inner[3]) =~= inner.take(4));
            assert(out@ =~= start + seq![100u8] + encode_entries(inner.take(4)));
        }
        push_bytes(token_key_bytes().as_slice(), &mut *out);
        push_bytes(self.token, &mut *out);
        proof {
            lemma_encode_entries_push(inner.take(4), inner[4].0, inner[4].1);
            assert(inner.take(4).push(inner[4]) =~= inner);
            assert(out@ =~= start + seq![100u8] + encode_entries(inner));
        }
        out.push(101u8);
        assert(out@ =~= start + encode_value(announce_request_value(self@)->Dict_0[0].1));
    }
}

/// Model of an announce response.
pub struct AnnouncePeerResponseView {
    /// Transaction id.
    pub trans_id: Seq<u8>,
    /// Id of the answering node.
    pub node_id: Seq<u8>,
}

/// An announce response with these parts: an invalid request error unless the node id has
/// the length of a node id.
pub open spec fn announce_response_new(trans_id: Seq<u8>, node_id: Seq<u8>) -> Result<AnnouncePeerResponseView, DhtFailure> {
    if node_id.len() != NODE_ID_LEN {
        Err(request_failure(trans_id, node_id_length_text(node_id.len())))
    } else {
        Ok(AnnouncePeerResponseView { trans_id, node_id })
    }
}

/// The bencode value of an announce response.
pub open spec fn announce_response_value(m: AnnouncePeerResponseView) -> BValue {
    BValue::Dict(
        seq![
            (response_type_key(), BValue::Dict(seq![(node_id_key(), BValue::Bytes(m.node_id))])),
            (transaction_id_key(), BValue::Bytes(m.trans_id)),
            (message_type_key(), BValue::Bytes(response_type_key())),
        ],
    )
}

/// The answer to an announce request.
#[derive(Copy, Clone, PartialEq, Eq, Hash, Debug)]
pub struct AnnouncePeerResponse<'a> {
    trans_id: &'a [u8],
    node_id: &'a [u8],
}

impl<'a> View for AnnouncePeerResponse<'a> {
    type V = AnnouncePeerResponseView;

    closed spec fn view(&self) -> AnnouncePeerResponseView {
        AnnouncePeerResponseView { trans_id: self.trans_id@, node_id: self.node_id@ }
    }
}

impl<'a> AnnouncePeerResponse<'a> {
    /// An announce response (see `announce_response_new`).
    pub fn new(trans_id: &'a [u8], node_id: &'a [u8]) -> (r: Result<AnnouncePeerResponse<'a>, DhtError>)
        ensures
            match announce_response_new(trans_id@, node_id@) {
                Ok(v) => r matches Ok(m) && m@ == v,
                Err(f) => r matches Err(e) && e@ == f,
            },
    {
        let validate = RequestValidate::new(trans_id);
        validate.validate_node_id(node_id)?;
        Ok(AnnouncePeerResponse { trans_id, node_id })
    }

    /// Reads an announce response from its argument dictionary: the node id must be a byte
    /// string of the length of a node id.
    pub fn from_parts(rsp_root: &BDict<BencodeRef<'a>>, trans_id: &'a [u8]) -> (r: Result<AnnouncePeerResponse<'a>, DhtError>)
        ensures
            match bytes_entry(rsp_root.kv(), node_id_key()) {
                Err(f) => r matches Err(e) && e@ == request_failure(trans_id@, convert_failure_text(f)),
                Ok(node_id) => match announce_response_new(trans_id@, node_id) {
                    Ok(v) => r matches Ok(m) && m@ == v,
                    Err(f) => r matches Err(e) && e@ == f,
                },
            },
    {
        let validate = RequestValidate::new(trans_id);
        let node_id = match lookup_and_convert_bytes(rsp_root, node_id_key_bytes().as_slice()) {
            Ok(b) => b,
            Err(e) => {
                return Err(validate.handle_error(e));
            },
        };
        AnnouncePeerResponse::new(trans_id, node_id)
    }

    /// The transaction id.
    pub fn transaction_id(&self) -> (r: &'a [u8])
        ensures
            r@ == self@.trans_id,
    {
        self.trans_id
    }

    /// The id of the answering node.
    pub fn node_id(&self) -> (r: &'a [u8])
        ensures
            r@ == self@.node_id,
    {
        self.node_id
    }

    /// The bencode of the response (see `announce_response_value`).
    pub fn encode(&self) -> (out: Vec<u8>)
        ensures
            out@ == encode_value(announce_response_value(self@)),
    {
        let mut out: Vec<u8> = Vec::new();
        out.push(100u8);
        push_bytes(response_type_key_bytes().as_slice(), &mut out);
        out.push(100u8);
        push_bytes(node_id_key_bytes().as_slice(), &mut out);
        push_bytes(self.node_id, &mut out);
        out.push(101u8);
        push_bytes(transaction_id_key_bytes().as_slice(), &mut out);
        push_bytes(self.trans_id, &mut out);
        push_bytes(message_type_key_bytes().as_slice(), &mut out);
        push_bytes(response_type_key_bytes().as_slice(), &mut out);
        out.push(101u8);
        proof {
            let v = announce_response_value(self@);
            let inner = v->Dict_0[0].1->Dict_0;
            let outer = v->Dict_0;
            lemma_encode_entries_push(Seq::empty(), inner[0].0, inner[0].1);
            assert(Seq::<(Seq<u8>, BValue)>::empty().push(inner[0]) =~= inner);
            lemma_encode_entries_push(Seq::empty(), outer[0].0, outer[0].1);
            lemma_encode_entries_push(outer.take(1), outer[1].0, outer[1].1);
            lemma_encode_entries_push(outer.take(2), outer[2].0, outer[2].1);
            assert(Seq::<(Seq<u8>, BValue)>::empty().push(outer[0]) =~= outer.take(1));
            assert(outer.take(1).push(outer[1]) =~= outer.take(2));
            assert(outer.take(2).push(outer[2]) =~= outer);
            assert(out@ =~= encode_value(v));
        }
        out
    }
}

} // verus!
