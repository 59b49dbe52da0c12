//! The request for the peers of an info hash.
use vstd::prelude::*;

use crate::bencode::dict::BDict;
use crate::bencode::encode::{lemma_encode_entries_push, push_bytes};
use crate::bencode::reference::BencodeRef;
use crate::bencode::spec::{encode_entries, encode_value, BValue};
use crate::dht::error::DhtError;
use crate::dht::message::find_node::{id_entry, read_id};
use crate::dht::message::{
    get_peers_key, get_peers_key_bytes, info_hash_key, info_hash_key_bytes, message_type_key, message_type_key_bytes,
    node_id_key, node_id_key_bytes, request_args_key, request_args_key_bytes, request_type_key, request_type_key_bytes,
    transaction_id_key, transaction_id_key_bytes,
};
use crate::dht::routing::node::NodeId;

verus! {

/// The bencode value of a request for the peers of `info_hash`.
pub open spec fn get_peers_request_value(trans_id: Seq<u8>, node_id: Seq<u8>, info_hash: Seq<u8>) -> BValue {
    BValue::Dict(
        seq![
            (
                request_args_key(),
                BValue::Dict(seq![(node_id_key(), BValue::Bytes(node_id)), (info_hash_key(), BValue::Bytes(info_hash))]),
            ),
            (request_type_key(), BValue::Bytes(get_peers_key())),
            (transaction_id_key(), BValue::Bytes(trans_id)),
            (message_type_key(), BValue::Bytes(request_type_key())),
        ],
    )
}

/// A request for the peers of an info hash, and for the nodes closest to it.
#[derive(Copy, Clone, PartialEq, Eq, Hash, Debug)]
pub struct GetPeersRequest<'a> {
    trans_id: &'a [u8],
    node_id: NodeId,
    info_hash: NodeId,
}

impl<'a> GetPeersRequest<'a> {
    /// The transaction id.
    pub closed spec fn trans_id_view(&self) -> Seq<u8> {
        self.trans_id@
    }

    /// The id of the asking node.
    pub closed spec fn node_id_view(&self) -> Seq<u8> {
        self.node_id@
    }

    /// The info hash whose peers are asked for.
    pub closed spec fn info_hash_view(&self) -> Seq<u8> {
        self.info_hash@
    }

    /// A request of transaction `trans_id` from node `node_id` for the peers of `info_hash`.
    pub fn new(trans_id: &'a [u8], node_id: NodeId, info_hash: NodeId) -> (r: GetPeersRequest<'a>)
        ensures
            r.trans_id_view() == trans_id@,
            r.node_id_view() == node_id@,
            r.info_hash_view() == info_hash@,
    {
        GetPeersRequest { trans_id, node_id, info_hash }
    }

    /// Reads a request from its argument dictionary: the node id under `id`, then the info
    /// hash under `info_hash`, each a byte string of the length of a node id.
    pub fn from_parts(rqst_root: &BDict<BencodeRef<'a>>, trans_id: &'a [u8]) -> (r: Result<GetPeersRequest<'a>, DhtError>)
        ensures
            match id_entry(rqst_root.kv(), node_id_key(), trans_id@) {
                Err(f) => r matches Err(e) && e@ == f,
                Ok(node_id) => match id_entry(rqst_root.kv(), info_hash_key(), trans_id@) {
                    Err(f) => r matches Err(e) && e@ == f,
                    Ok(info_hash) => r matches Ok(m) && m.trans_id_view() == trans_id@ && m.node_id_view() == node_id
                        && m.info_hash_view() == info_hash,
                },
            },
    {
        let node_id = read_id(rqst_root, node_id_key_bytes().as_slice(), trans_id)?;
        let info_hash = read_id(rqst_root, info_hash_key_bytes().as_slice(), trans_id)?;
        Ok(GetPeersRequest::new(trans_id, node_id, info_hash))
    }

    /// The transaction id.
    pub fn transaction_id(&self) -> (r: &'a [u8])
        ensures
            r@ == self.trans_id_view(),
    {
        self.trans_id
    }

    /// The id of the asking node.
    pub fn node_id(&self) -> (r: NodeId)
        ensures
            r@ == self.node_id_view(),
    {
        self.node_id
    }

    /// The info hash whose peers are asked for.
    pub fn info_hash(&self) -> (r: NodeId)
        ensures
            r@ == self.info_hash_view(),
    {
        self.info_hash
    }

    /// The bencode of the request (see `get_peers_request_value`).
    pub fn encode(&self) -> (out: Vec<u8>)
        ensures
            out@ == encode_value(get_peers_request_value(self.trans_id_view(), self.node_id_view(), self.info_hash_view())),
    {
        let ghost v = get_peers_request_value(self.trans_id_view(), self.node_id_view(), self.info_hash_view());
        let ghost outer = v->Dict_0;
        let ghost inner = outer[0].1->Dict_0;
        let mut out: Vec<u8> = Vec::new();
        out.push(100u8);
        push_bytes(request_args_key_bytes().as_slice(), &mut out);
        let ghost mark = out@;
        out.push(100u8);
        push_bytes(node_id_key_bytes().as_slice(), &mut out);
        push_bytes(self.node_id.as_slice(), &mut out);
        push_bytes(info_hash_key_bytes().as_slice(), &mut out);
        push_bytes(self.info_hash.as_slice(), &mut out);
        out.push(101u8);
        proof {
            lemma_encode_entries_push(Seq::empty(), inner[0].0, inner[0].1);
            lemma_encode_entries_push(inner.take(1), inner[1].0, inner[1].1);
            assert(Seq::<(Seq<u8>, BValue)>::empty().push(inner[0]) =~= inner.take(1));
            assert(inner.take(1).push(inner[1]) =~= inner);
            assert(out@ =~= mark + encode_value(outer[0].1));
            lemma_encode_entries_push(Seq::empty(), outer[0].0, outer[0].1);
            assert(Seq::<(Seq<u8>, BValue)>::empty().push(outer[0]) =~= outer.take(1));
            assert(out@ =~= seq![100u8] + encode_entries(outer.take(1)));
        }
        push_bytes(request_type_key_bytes().as_slice(), &mut out);
        push_bytes(get_peers_key_bytes().as_slice(), &mut out);
        proof {
            lemma_encode_entries_push(outer.take(1), outer[1].0, outer[1].1);
            assert(outer.take(1).push(outer[1]) =~= outer.take(2));
        }
        push_bytes(transaction_id_key_bytes().as_slice(), &mut out);
        push_bytes(self.trans_id, &mut out);
        proof {
            lemma_encode_entries_push(outer.take(2), outer[2].0, outer[2].1);
            assert(outer.take(2).push(outer[2]) =~= outer.take(3));
        }
        push_bytes(message_type_key_bytes().as_slice(), &mut out);
        push_bytes(request_type_key_bytes().as_slice(), &mut out);
        proof {
            lemma_encode_entries_push(outer.take(3), outer[3].0, outer[3].1);
            assert(outer.take(3).push(outer[3]) =~= outer);
        }
        out.push(101u8);
        assert(out@ =~= encode_value(v));
        out
    }
}

} // verus!
