use vstd::prelude::*;

use crate::bencode::convert::{lookup_and_convert_bytes, BencodeConvert};
use crate::bencode::dict::BDict;
use crate::bencode::encode::{lemma_encode_entries_push, push_bytes};
use crate::bencode::reference::BencodeRef;
use crate::bencode::spec::{encode_entries, encode_value, BValue};
use crate::dht::error::{DhtError, DhtFailure};
use crate::dht::message::request::{bytes_entry, convert_failure_text, node_id_length_text, request_failure, RequestValidate};
use crate::dht::message::compact_info::CompactNodeInfo;
use crate::dht::message::{
    find_node_key, find_node_key_bytes, message_type_key, message_type_key_bytes, node_id_key, node_id_key_bytes,
    nodes_key, nodes_key_bytes, request_args_key, request_args_key_bytes, request_type_key, request_type_key_bytes,
    response_type_key, response_type_key_bytes, target_id_key, target_id_key_bytes, transaction_id_key,
    transaction_id_key_bytes, NODE_ID_LEN,
};
use crate::dht::routing::node::NodeId;
use crate::dht::text::{decimal_chars, push_decimal_text};

verus! {

/// Reading a node id stored under `key`, for transaction `trans_id`: a byte string of the
/// length of a node id.
pub open spec fn id_entry(entries: Seq<(Seq<u8>, BencodeRef)>, key: Seq<u8>, trans_id: Seq<u8>) -> Result<Seq<u8>, DhtFailure> {
    match bytes_entry(entries, key) {
        Err(f) => Err(request_failure(trans_id, convert_failure_text(f))),
        Ok(id) => if id.len() != NODE_ID_LEN {
            Err(request_failure(trans_id, node_id_length_text(id.len())))
        } else {
            Ok(id)
        },
    }
}

/// The bencode value of a node lookup request.
pub open spec fn find_node_request_value(trans_id: Seq<u8>, node_id: Seq<u8>, target_id: Seq<u8>) -> BValue {
    BValue::Dict(
        seq![
            (
                request_args_key(),
                BValue::Dict(seq![(node_id_key(), BValue::Bytes(node_id)), (target_id_key(), BValue::Bytes(target_id))]),
            ),
            (request_type_key(), BValue::Bytes(find_node_key())),
            (transaction_id_key(), BValue::Bytes(trans_id)),
            (message_type_key(), BValue::Bytes(request_type_key())),
        ],
    )
}

/// Reads the id under `key` of a request's argument dictionary.
pub(crate) fn read_id(root: &BDict<BencodeRef>, key: &[u8], trans_id: &[u8]) -> (r: Result<NodeId, DhtError>)
    ensures
        match id_entry(root.kv(), key@, trans_id@) {
            Ok(id) => r matches Ok(n) && n@ == id,
            Err(f) => r matches Err(e) && e@ == f,
        },
{
    let validate = RequestValidate::new(trans_id);
    let bytes = match lookup_and_convert_bytes(root, key) {
        Ok(b) => b,
        Err(e) => {
            return Err(validate.handle_error(e));
        },
    };
    validate.validate_node_id(bytes)
}

/// A request for the nodes closest to a target id.
#[derive(Copy, Clone, PartialEq, Eq, Hash, Debug)]
pub struct FindNodeRequest<'a> {
    trans_id: &'a [u8],
    node_id: NodeId,
    target_id: NodeId,
}

impl<'a> FindNodeRequest<'a> {
    /// The transaction id.
    pub closed spec fn trans_id_view(&self) -> Seq<u8> {
        self.trans_id@
    }

    /// The id of the asking node.
    pub closed spec fn node_id_view(&self) -> Seq<u8> {
        self.node_id@
    }

    /// The id looked for.
    pub closed spec fn target_id_view(&self) -> Seq<u8> {
        self.target_id@
    }

    /// A request of transaction `trans_id` from node `node_id` for `target_id`.
    pub fn new(trans_id: &'a [u8], node_id: NodeId, target_id: NodeId) -> (r: FindNodeRequest<'a>)
        ensures
            r.trans_id_view() == trans_id@,
            r.node_id_view() == node_id@,
            r.target_id_view() == target_id@,
    {
        FindNodeRequest { trans_id, node_id, target_id }
    }

    /// Reads a request from its argument dictionary: the node id under `id` and the target
    /// under `target_key` (which differs for forward compatible requests).
    pub fn from_parts(rqst_root: &BDict<BencodeRef<'a>>, trans_id: &'a [u8], target_key: &[u8]) -> (r: Result<
        FindNodeRequest<'a>,
        DhtError,
    >)
        ensures
            match id_entry(rqst_root.kv(), node_id_key(), trans_id@) {
                Err(f) => r matches Err(e) && e@ == f,
                Ok(node_id) => match id_entry(rqst_root.kv(), target_key@, trans_id@) {
                    Err(f) => r matches Err(e) && e@ == f,
                    Ok(target_id) => r matches Ok(m) && m.trans_id_view() == trans_id@ && m.node_id_view() == node_id
                        && m.target_id_view() == target_id,
                },
            },
    {
        let node_id = read_id(rqst_root, node_id_key_bytes().as_slice(), trans_id)?;
        let target_id = read_id(rqst_root, target_key, trans_id)?;
        Ok(FindNodeRequest::new(trans_id, node_id, target_id))
    }

    /// The transaction id.
    pub fn transaction_id(&self) -> (r: &'a [u8])
        ensures
            r@ == self.trans_id_view(),
    {
        self.trans_id
    }

    /// The id of the asking node.
    pub fn node_id(&self) -> (r: NodeId)
        ensures
            r@ == self.node_id_view(),
    {
        self.node_id
    }

    /// The id looked for.
    pub fn target_id(&self) -> (r: NodeId)
        ensures
            r@ == self.target_id_view(),
    {
        self.target_id
    }

    /// The bencode of the request (see `find_node_request_value`).
    pub fn encode(&self) -> (out: Vec<u8>)
        ensures
            out@ == encode_value(find_node_request_value(self.trans_id_view(), self.node_id_view(), self.target_id_view())),
    {
        let ghost v = find_node_request_value(self.trans_id_view(), self.node_id_view(), self.target_id_view());
        let ghost outer = v->Dict_0;
        let ghost inner = outer[0].1->Dict_0;
        let mut out: Vec<u8> = Vec::new();
        out.push(100u8);
        push_bytes(request_args_key_bytes().as_slice(), &mut out);
        let ghost mark = out@;
        out.push(100u8);
        push_bytes(node_id_key_bytes().as_slice(), &mut out);
        push_bytes(self.node_id.as_slice(), &mut out);
        push_bytes(target_id_key_bytes().as_slice(), &mut out);
        push_bytes(self.target_id.as_slice(), &mut out);
        out.push(101u8);
        proof {
            lemma_encode_entries_push(Seq::empty(), inner[0].0, inner[0].1);
            lemma_encode_entries_push(inner.take(1), inner[1].0, inner[1].1);
            assert(Seq::<(Seq<u8>, BValue)>::empty().push(inner[0]) =~= inner.take(1));
            assert(inner.take(1).push(inner[1]) =~= inner);
            assert(out@ =~= mark + encode_value(outer[0].1));
            lemma_encode_entries_push(Seq::empty(), outer[0].0, outer[0].1);
            assert(Seq::<(Seq<u8>, BValue)>::empty().push(outer[0]) =~= outer.take(1));
            assert(out@ =~= seq![100u8] + encode_entries(outer.take(1)));
        }
        push_bytes(request_type_key_bytes().as_slice(), &mut out);
        push_bytes(find_node_key_bytes().as_slice(), &mut out);
        proof {
            lemma_encode_entries_push(outer.take(1), outer[1].0, outer[1].1);
            assert(outer.take(1).push(outer[1]) =~= outer.take(2));
            assert(out@ =~= seq![100u8] + encode_entries(outer.take(2)));
        }
        push_bytes(transaction_id_key_bytes().as_slice(), &mut out);
        push_bytes(self.trans_id, &mut out);
        proof {
            lemma_encode_entries_push(outer.take(2), outer[2].0, outer[2].1);
            assert(outer.take(2).push(outer[2]) =~= outer.take(3));
            assert(out@ =~= seq![100u8] + encode_entries(outer.take(3)));
        }
        push_bytes(message_type_key_bytes().as_slice(), &mut out);
        push_bytes(request_type_key_bytes().as_slice(), &mut out);
        proof {
            lemma_encode_entries_push(outer.take(3), outer[3].0, outer[3].1);
            assert(outer.take(3).push(outer[3]) =~= outer);
            assert(out@ =~= seq![100u8] + encode_entries(outer));
        }
        out.push(101u8);
        assert(out@ =~= encode_value(v));
        out
    }
}

/// The text of the error for compact nodes of `len` bytes, not a whole number of nodes.
pub open spec fn nodes_length_text(len: nat) -> Seq<char> {
    "Compact Nodes With Length "@ + decimal_chars(len) + " Are Not Valid"@
}

/// The bencode value of the answer to a node lookup.
pub open spec fn find_node_response_value(trans_id: Seq<u8>, node_id: Seq<u8>, nodes: Seq<u8>) -> BValue {
    BValue::Dict(
        seq![
            (
                response_type_key(),
                BValue::Dict(seq![(node_id_key(), BValue::Bytes(node_id)), (nodes_key(), BValue::Bytes(nodes))]),
            ),
            (transaction_id_key(), BValue::Bytes(trans_id)),
            (message_type_key(), BValue::Bytes(response_type_key())),
        ],
    )
}

/// The answer to a node lookup: the compact nodes closest to the target.
#[derive(Copy, Clone, PartialEq, Eq, Hash, Debug)]
pub struct FindNodeResponse<'a> {
    trans_id: &'a [u8],
    node_id: NodeId,
    nodes: CompactNodeInfo<'a>,
}

impl<'a> FindNodeResponse<'a> {
    /// The transaction id.
    pub closed spec fn trans_id_view(&self) -> Seq<u8> {
        self.trans_id@
    }

    /// The id of the answering node.
    pub closed spec fn node_id_view(&self) -> Seq<u8> {
        self.node_id@
    }

    /// The compact nodes.
    pub closed spec fn nodes_view(&self) -> Seq<u8> {
        self.nodes.bytes()
    }

    /// A response of transaction `trans_id` from node `node_id` with the compact `nodes`: an
    /// invalid response error unless they are a whole number of compact nodes.
    pub fn new(trans_id: &'a [u8], node_id: NodeId, nodes: &'a [u8]) -> (r: Result<FindNodeResponse<'a>, DhtError>)
        ensures
            nodes@.len() % 26 == 0 ==> (r matches Ok(m) && m.trans_id_view() == trans_id@ && m.node_id_view()
                == node_id@ && m.nodes_view() == nodes@),
            nodes@.len() % 26 != 0 ==> (r matches Err(e) && e@ == DhtFailure::InvalidResponse(
                nodes_length_text(nodes@.len()),
            )),
    {
        match CompactNodeInfo::new(nodes) {
            Ok(compact) => Ok(FindNodeResponse { trans_id, node_id, nodes: compact }),
            Err(_) => {
                let mut details = String::from_str("Compact Nodes With Length ");
                push_decimal_text(&mut details, nodes.len() as u64);
                details.append(" Are Not Valid");
                Err(DhtError::InvalidResponse { details })
            },
        }
    }

    /// Reads a response from its argument dictionary: the node id under `id`, then the
    /// compact nodes under `nodes`.
    pub fn from_parts(rsp_root: &BDict<BencodeRef<'a>>, trans_id: &'a [u8]) -> (r: Result<FindNodeResponse<'a>, DhtError>)
        ensures
            match id_entry(rsp_root.kv(), node_id_key(), trans_id@) {
                Err(f) => r matches Err(e) && e@ == f,
                Ok(node_id) => match bytes_entry(rsp_root.kv(), nodes_key()) {
                    Err(f) => r matches Err(e) && e@ == request_failure(trans_id@, convert_failure_text(f)),
                    Ok(nodes) => if nodes.len() % 26 == 0 {
                        r matches Ok(m) && m.trans_id_view() == trans_id@ && m.node_id_view() == node_id
                            && m.nodes_view() == nodes
                    } else {
                        r matches Err(e) && e@ == DhtFailure::InvalidResponse(nodes_length_text(nodes.len()))
                    },
                },
            },
    {
        let node_id = read_id(rsp_root, node_id_key_bytes().as_slice(), trans_id)?;
        let validate = RequestValidate::new(trans_id);
        let nodes = match lookup_and_convert_bytes(rsp_root, nodes_key_bytes().as_slice()) {
            Ok(b) => b,
            Err(e) => {
                return Err(validate.handle_error(e));
            },
        };
        FindNodeResponse::new(trans_id, node_id, nodes)
    }

    /// The transaction id.
    pub fn transaction_id(&self) -> (r: &'a [u8])
        ensures
            r@ == self.trans_id_view(),
    {
        self.trans_id
    }

    /// The id of the answering node.
    pub fn node_id(&self) -> (r: NodeId)
        ensures
            r@ == self.node_id_view(),
    {
        self.node_id
    }

    /// The compact nodes.
    pub fn nodes(&self) -> (r: CompactNodeInfo<'a>)
        ensures
            r.bytes() == self.nodes_view(),
    {
        self.nodes
    }

    /// The bencode of the response (see `find_node_response_value`).
    pub fn encode(&self) -> (out: Vec<u8>)
        ensures
            out@ == encode_value(find_node_response_value(self.trans_id_view(), self.node_id_view(), self.nodes_view())),
    {
        let ghost v = find_node_response_value(self.trans_id_view(), self.node_id_view(), self.nodes_view());
        let ghost outer = v->Dict_0;
        let ghost inner = outer[0].1->Dict_0;
        let mut out: Vec<u8> = Vec::new();
        out.push(100u8);
        push_bytes(response_type_key_bytes().as_slice(), &mut out);
        let ghost mark = out@;
        out.push(100u8);
        push_bytes(node_id_key_bytes().as_slice(), &mut out);
        push_bytes(self.node_id.as_slice(), &mut out);
        push_bytes(nodes_key_bytes().as_slice(), &mut out);
        push_bytes(self.nodes.nodes(), &mut out);
        out.push(101u8);
        proof {
            lemma_encode_entries_push(Seq::empty(), inner[0].0, inner[0].1);
            lemma_encode_entries_push(inner.take(1), inner[1].0, inner[1].1);
            assert(Seq::<(Seq<u8>, BValue)>::empty().push(inner[0]) =~= inner.take(1));
            assert(inner.take(1).push(inner[1]) =~= inner);
            assert(out@ =~= mark + encode_value(outer[0].1));
            lemma_encode_entries_push(Seq::empty(), outer[0].0, outer[0].1);
            assert(Seq::<(Seq<u8>, BValue)>::empty().push(outer[0]) =~= outer.take(1));
            assert(out@ =~= seq![100u8] + encode_entries(outer.take(1)));
        }
        push_bytes(transaction_id_key_bytes().as_slice(), &mut out);
        push_bytes(self.trans_id, &mut out);
        proof {
            lemma_encode_entries_push(outer.take(1), outer[1].0, outer[1].1);
            assert(outer.take(1).push(outer[1]) =~= outer.take(2));
            assert(out@ =~= seq![100u8] + encode_entries(outer.take(2)));
        }
        push_bytes(message_type_key_bytes().as_slice(), &mut out);
        push_bytes(response_type_key_bytes().as_slice(), &mut out);
        proof {
            lemma_encode_entries_push(outer.take(2), outer[2].0, outer[2].1);
            assert(outer.take(2).push(outer[2]) =~= outer);
            assert(out@ =~= seq![100u8] + encode_entries(outer));
        }
        out.push(101u8);
        assert(out@ =~= encode_value(v));
        out
    }
}

} // verus!
