use vstd::prelude::*;

use crate::bencode::convert::{lookup_and_convert_bytes, BencodeConvert};
use crate::bencode::dict::BDict;
use crate::bencode::encode::{lemma_encode_entries_push, push_bytes};
use crate::bencode::reference::BencodeRef;
use crate::bencode::spec::{encode_entries, encode_value, BValue};
use crate::dht::error::DhtError;
use crate::dht::message::request::{bytes_entry, convert_failure_text, node_id_length_text, request_failure, RequestValidate};
use crate::dht::message::{
    message_type_key, message_type_key_bytes, node_id_key, node_id_key_bytes, ping_key, ping_key_bytes,
    request_args_key, request_args_key_bytes, request_type_key, request_type_key_bytes, response_type_key,
    response_type_key_bytes, transaction_id_key, transaction_id_key_bytes, NODE_ID_LEN,
};
use crate::dht::routing::node::NodeId;

verus! {

/// Reading the node id of a ping from its argument entries, for transaction `trans_id`:
/// it must be a byte string of the length of a node id.
pub open spec fn ping_node_id(entries: Seq<(Seq<u8>, BencodeRef)>, trans_id: Seq<u8>) -> Result<Seq<u8>, crate::dht::error::DhtFailure> {
    match bytes_entry(entries, node_id_key()) {
        Err(f) => Err(request_failure(trans_id, convert_failure_text(f))),
        Ok(id) => if id.len() != NODE_ID_LEN {
            Err(request_failure(trans_id, node_id_length_text(id.len())))
        } else {
            Ok(id)
        },
    }
}

/// The bencode value of a ping request.
pub open spec fn ping_request_value(trans_id: Seq<u8>, node_id: Seq<u8>) -> BValue {
    BValue::Dict(
        seq![
            (request_args_key(), BValue::Dict(seq![(node_id_key(), BValue::Bytes(node_id))])),
            (request_type_key(), BValue::Bytes(ping_key())),
            (transaction_id_key(), BValue::Bytes(trans_id)),
            (message_type_key(), BValue::Bytes(request_type_key())),
        ],
    )
}

/// The bencode value of a ping response.
pub open spec fn ping_response_value(trans_id: Seq<u8>, node_id: Seq<u8>) -> BValue {
    BValue::Dict(
        seq![
            (response_type_key(), BValue::Dict(seq![(node_id_key(), BValue::Bytes(node_id))])),
            (transaction_id_key(), BValue::Bytes(trans_id)),
            (message_type_key(), BValue::Bytes(response_type_key())),
        ],
    )
}

/// Reads the node id of a ping request or response from its argument dictionary.
fn read_ping_node_id(root: &BDict<BencodeRef>, trans_id: &[u8]) -> (r: Result<NodeId, DhtError>)
    ensures
        match ping_node_id(root.kv(), trans_id@) {
            Ok(id) => r matches Ok(n) && n@ == id,
            Err(f) => r matches Err(e) && e@ == f,
        },
{
    let validate = RequestValidate::new(trans_id);
    let node_id_bytes = match lookup_and_convert_bytes(root, node_id_key_bytes().as_slice()) {
        Ok(b) => b,
        Err(e) => {
            return Err(validate.handle_error(e));
        },
    };
    validate.validate_node_id(node_id_bytes)
}

/// Appends the bencode of the one-entry dictionary holding `node_id` under `id`.
fn push_node_id_dict(node_id: &NodeId, out: &mut Vec<u8>)
    ensures
        final(out)@ == old(out)@ + encode_value(BValue::Dict(seq![(node_id_key(), BValue::Bytes(node_id@))])),
{
    let ghost start = out@;
    let ghost es = seq![(node_id_key(), BValue::Bytes(node_id@))];
    out.push(100u8);
    push_bytes(node_id_key_bytes().as_slice(), &mut *out);
    push_bytes(node_id.as_slice(), &mut *out);
    out.push(101u8);
    proof {
        lemma_encode_entries_push(Seq::empty(), es[0].0, es[0].1);
        assert(Seq::<(Seq<u8>, BValue)>::empty().push(es[0]) =~= es);
    }
    assert(out@ =~= start + encode_value(BValue::Dict(es)));
}

/// A ping request.
#[derive(Copy, Clone, PartialEq, Eq, Hash, Debug)]
pub struct PingRequest<'a> {
    trans_id: &'a [u8],
    node_id: NodeId,
}

impl<'a> PingRequest<'a> {
    /// The transaction id.
    pub closed spec fn trans_id_view(&self) -> Seq<u8> {
        self.trans_id@
    }

    /// The id of the pinging node.
    pub closed spec fn node_id_view(&self) -> Seq<u8> {
        self.node_id@
    }

    /// A ping request of transaction `trans_id` from node `node_id`.
    pub fn new(trans_id: &'a [u8], node_id: NodeId) -> (r: PingRequest<'a>)
        ensures
            r.trans_id_view() == trans_id@,
            r.node_id_view() == node_id@,
    {
        PingRequest { trans_id, node_id }
    }

    /// Reads a ping request from its argument dictionary (see `ping_node_id`).
    pub fn from_parts(rqst_root: &BDict<BencodeRef<'a>>, trans_id: &'a [u8]) -> (r: Result<PingRequest<'a>, DhtError>)
        ensures
            match ping_node_id(rqst_root.kv(), trans_id@) {
                Ok(id) => r matches Ok(p) && p.node_id_view() == id && p.trans_id_view() == trans_id@,
                Err(f) => r matches Err(e) && e@ == f,
            },
    {
        let node_id = read_ping_node_id(rqst_root, trans_id)?;
        Ok(PingRequest::new(trans_id, node_id))
    }

    /// The transaction id.
    pub fn transaction_id(&self) -> (r: &'a [u8])
        ensures
            r@ == self.trans_id_view(),
    {
        self.trans_id
    }

    /// The id of the pinging node.
    pub fn node_id(&self) -> (r: NodeId)
        ensures
            r@ == self.node_id_view(),
    {
        self.node_id
    }

    /// The bencode of the request (see `ping_request_value`).
    pub fn encode(&self) -> (out: Vec<u8>)
        ensures
            out@ == encode_value(ping_request_value(self.trans_id_view(), self.node_id_view())),
    {
        let ghost outer = ping_request_value(self.trans_id_view(), self.node_id_view())->Dict_0;
        let mut out: Vec<u8> = Vec::new();
        out.push(100u8);
        push_bytes(request_args_key_bytes().as_slice(), &mut out);
        push_node_id_dict(&self.node_id, &mut out);
        proof {
            lemma_encode_entries_push(Seq::empty(), outer[0].0, outer[0].1);
            assert(Seq::<(Seq<u8>, BValue)>::empty().push(outer[0]) =~= outer.take(1));
            assert(out@ =~= seq![100u8] + encode_entries(outer.take(1)));
        }
        push_bytes(request_type_key_bytes().as_slice(), &mut out);
        push_bytes(ping_key_bytes().as_slice(), &mut out);
        proof {
            lemma_encode_entries_push(outer.take(1), outer[1].0, outer[1].1);
            assert(outer.take(1).push(outer[1]) =~= outer.take(2));
            assert(out@ =~= seq![100u8] + encode_entries(outer.take(2)));
        }
        push_bytes(transaction_id_key_bytes().as_slice(), &mut out);
        push_bytes(self.trans_id, &mut out);
        proof {
            lemma_encode_entries_push(outer.take(2), outer[2].0, outer[2].1);
            assert(outer.take(2).push(outer[2]) =~= outer.take(3));
            assert(out@ =~= seq![100u8] + encode_entries(outer.take(3)));
        }
        push_bytes(message_type_key_bytes().as_slice(), &mut out);
        push_bytes(request_type_key_bytes().as_slice(), &mut out);
        proof {
            lemma_encode_entries_push(outer.take(3), outer[3].0, outer[3].1);
            assert(outer.take(3).push(outer[3]) =~= outer);
            assert(out@ =~= seq![100u8] + encode_entries(outer));
        }
        out.push(101u8);
        assert(out@ =~= encode_value(ping_request_value(self.trans_id_view(), self.node_id_view())));
        out
    }
}

/// A ping response.
#[derive(Copy, Clone, PartialEq, Eq, Hash, Debug)]
pub struct PingResponse<'a> {
    trans_id: &'a [u8],
    node_id: NodeId,
}

impl<'a> PingResponse<'a> {
    /// The transaction id.
    pub closed spec fn trans_id_view(&self) -> Seq<u8> {
        self.trans_id@
    }

    /// The id of the answering node.
    pub closed spec fn node_id_view(&self) -> Seq<u8> {
        self.node_id@
    }

    /// A ping response of transaction `trans_id` from node `node_id`.
    pub fn new(trans_id: &'a [u8], node_id: NodeId) -> (r: PingResponse<'a>)
        ensures
            r.trans_id_view() == trans_id@,
            r.node_id_view() == node_id@,
    {
        PingResponse { trans_id, node_id }
    }

    /// Reads a ping response from its argument dictionary (see `ping_node_id`).
    pub fn from_parts(rsp_root: &BDict<BencodeRef<'a>>, trans_id: &'a [u8]) -> (r: Result<PingResponse<'a>, DhtError>)
        ensures
            match ping_node_id(rsp_root.kv(), trans_id@) {
                Ok(id) => r matches Ok(p) && p.node_id_view() == id && p.trans_id_view() == trans_id@,
                Err(f) => r matches Err(e) && e@ == f,
            },
    {
        let request = PingRequest::from_parts(rsp_root, trans_id)?;
        Ok(PingResponse::new(request.transaction_id(), request.node_id()))
    }

    /// The transaction id.
    pub fn transaction_id(&self) -> (r: &'a [u8])
        ensures
            r@ == self.trans_id_view(),
    {
        self.trans_id
    }

    /// The id of the answering node.
    pub fn node_id(&self) -> (r: NodeId)
        ensures
            r@ == self.node_id_view(),
    {
        self.node_id
    }

    /// The bencode of the response (see `ping_response_value`).
    pub fn encode(&self) -> (out: Vec<u8>)
        ensures
            out@ == encode_value(ping_response_value(self.trans_id_view(), self.node_id_view())),
    {
        let ghost outer = ping_response_value(self.trans_id_view(), self.node_id_view())->Dict_0;
        let mut out: Vec<u8> = Vec::new();
        out.push(100u8);
        push_bytes(response_type_key_bytes().as_slice(), &mut out);
        push_node_id_dict(&self.node_id, &mut out);
        proof {
            lemma_encode_entries_push(Seq::empty(), outer[0].0, outer[0].1);
            assert(Seq::<(Seq<u8>, BValue)>::empty().push(outer[0]) =~= outer.take(1));
            assert(out@ =~= seq![100u8] + encode_entries(outer.take(1)));
        }
        push_bytes(transaction_id_key_bytes().as_slice(), &mut out);
        push_bytes(self.trans_id, &mut out);
        proof {
            lemma_encode_entries_push(outer.take(1), outer[1].0, outer[1].1);
            assert(outer.take(1).push(outer[1]) =~= outer.take(2));
            assert(out@ =~= seq![100u8] + encode_entries(outer.take(2)));
        }
        push_bytes(message_type_key_bytes().as_slice(), &mut out);
        push_bytes(response_type_key_bytes().as_slice(), &mut out);
        proof {
            lemma_encode_entries_push(outer.take(2), outer[2].0, outer[2].1);
            assert(outer.take(2).push(outer[2]) =~= outer);
            assert(out@ =~= seq![100u8] + encode_entries(outer));
        }
        out.push(101u8);
        assert(out@ =~= encode_value(ping_response_value(self.trans_id_view(), self.node_id_view())));
        out
    }
}

} // verus!
