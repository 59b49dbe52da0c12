//! Reading messages back: the arguments of an encoded message, once decoded, give the
//! message again.
use vstd::prelude::*;
use vstd::utf8::{decode_utf8, encode_utf8, valid_utf8};

use crate::bencode::convert::entry_value;
use crate::bencode::dict::find_key;
use crate::bencode::reference::BencodeRef;
use crate::bencode::spec::{strip, BValue, RefView};
use crate::dht::message::announce_peer::{
    announce_from_parts, announce_new, announce_request_value, announce_response_new, announce_response_value,
    AnnouncePeerRequestView, AnnouncePeerResponseView, ResponsePort,
};
use crate::dht::message::error::{error_from_parts, error_message_value, ErrorMessageView};
use crate::dht::message::request::bytes_entry;
use crate::dht::message::node_id_key;

verus! {

/// The decoded dictionary entries `entries` stand for the entries `vs`: the same keys, in
/// order, with values that strip to the values of `vs`.
pub open spec fn decoded_as<'a>(entries: Seq<(Seq<u8>, BencodeRef<'a>)>, vs: Seq<(Seq<u8>, BValue)>) -> bool {
    &&& entries.len() == vs.len()
    &&& forall|j: int| 0 <= j < vs.len() ==> (#[trigger] entries[j]).0 == vs[j].0 && strip(entries[j].1@) == vs[j].1
}

/// The keys of `vs` are all different.
pub open spec fn distinct_keys(vs: Seq<(Seq<u8>, BValue)>) -> bool {
    forall|j: int, k: int| 0 <= j < k < vs.len() ==> (#[trigger] vs[j]).0 != (#[trigger] vs[k]).0
}

/// The value under the key of `vs[i]` strips to `vs[i]`'s value.
proof fn lemma_entry_of_decoded<'a>(entries: Seq<(Seq<u8>, BencodeRef<'a>)>, vs: Seq<(Seq<u8>, BValue)>, i: int)
    requires
        decoded_as(entries, vs),
        distinct_keys(vs),
        0 <= i < vs.len(),
    ensures
        find_key(entries, vs[i].0) == Some(i),
        entry_value(entries, vs[i].0) matches Some(r) && strip(r) == vs[i].1,
    decreases entries.len(),
{
    let n = entries.len() as int;
    if i == n - 1 {
        assert(entries.last().0 == vs[i].0);
    } else {
        assert(entries[n - 1].0 == vs[n - 1].0);
        assert(vs[n - 1].0 != vs[i].0);
        let e2 = entries.drop_last();
        let v2 = vs.drop_last();
        assert forall|j: int| 0 <= j < v2.len() implies (#[trigger] e2[j]).0 == v2[j].0 && strip(e2[j].1@) == v2[j].1 by {
            assert(entries[j].0 == vs[j].0);
        }
        assert forall|j: int, k: int| 0 <= j < k < v2.len() implies (#[trigger] v2[j]).0 != (#[trigger] v2[k]).0 by {
            assert(vs[j].0 != vs[k].0);
        }
        lemma_entry_of_decoded(e2, v2, i);
    }
}

/// A node that strips to a byte string is that byte string.
proof fn lemma_strip_bytes(r: RefView, b: Seq<u8>)
    requires
        strip(r) == BValue::Bytes(b),
    ensures
        r matches RefView::Bytes(c, _) && c == b,
{
    match r {
        RefView::Int(_, _) => {},
        RefView::Bytes(_, _) => {},
        RefView::List(_, _) => {},
        RefView::Dict(_, _) => {},
    }
}

/// A node that strips to an integer is that integer.
proof fn lemma_strip_int(r: RefView, n: int)
    requires
        strip(r) == BValue::Int(n),
    ensures
        r matches RefView::Int(m, _) && m == n,
{
    match r {
        RefView::Int(_, _) => {},
        RefView::Bytes(_, _) => {},
        RefView::List(_, _) => {},
        RefView::Dict(_, _) => {},
    }
}

/// Reading back an announce request from the decoded arguments of its own encoding gives
/// the request again: the ids, the token and the port, implied or explicit, come back
/// unchanged.
pub proof fn lemma_announce_request_round_trip<'a>(m: AnnouncePeerRequestView, args: Seq<(Seq<u8>, BencodeRef<'a>)>)
    requires
        announce_new(m.trans_id, m.node_id, m.info_hash, m.token, m.port) == Ok::<AnnouncePeerRequestView, crate::dht::error::DhtFailure>(m),
        decoded_as(args, announce_request_value(m)->Dict_0[0].1->Dict_0),
    ensures
        announce_from_parts(args, m.trans_id) == Ok::<AnnouncePeerRequestView, crate::dht::error::DhtFailure>(m),
{
    let vs = announce_request_value(m)->Dict_0[0].1->Dict_0;
    assert(vs.len() == 5);
    assert forall|j: int, k: int| 0 <= j < k < vs.len() implies (#[trigger] vs[j]).0 != (#[trigger] vs[k]).0 by {
        assert(vs[j].0.len() != vs[k].0.len());
    }
    lemma_entry_of_decoded(args, vs, 0);
    lemma_entry_of_decoded(args, vs, 1);
    lemma_entry_of_decoded(args, vs, 2);
    lemma_entry_of_decoded(args, vs, 3);
    lemma_entry_of_decoded(args, vs, 4);
    lemma_strip_bytes(entry_value(args, vs[0].0)->0, m.node_id);
    lemma_strip_int(entry_value(args, vs[1].0)->0, vs[1].1->Int_0);
    lemma_strip_bytes(entry_value(args, vs[2].0)->0, m.info_hash);
    lemma_strip_int(entry_value(args, vs[3].0)->0, vs[3].1->Int_0);
    lemma_strip_bytes(entry_value(args, vs[4].0)->0, m.token);
    match m.port {
        ResponsePort::Implied => {},
        ResponsePort::Explicit(p) => {
            assert(((p as int) as i64) as u16 == p);
        },
    }
}

/// Reading back an announce response from the decoded arguments of its own encoding gives
/// the response again.
pub proof fn lemma_announce_response_round_trip<'a>(m: AnnouncePeerResponseView, args: Seq<(Seq<u8>, BencodeRef<'a>)>)
    requires
        announce_response_new(m.trans_id, m.node_id) == Ok::<AnnouncePeerResponseView, crate::dht::error::DhtFailure>(m),
        decoded_as(args, announce_response_value(m)->Dict_0[0].1->Dict_0),
    ensures
        bytes_entry(args, node_id_key()) == Ok::<Seq<u8>, crate::bencode::error::ConvertFailure>(m.node_id),
        announce_response_new(m.trans_id, m.node_id) == Ok::<AnnouncePeerResponseView, crate::dht::error::DhtFailure>(m),
{
    let vs = announce_response_value(m)->Dict_0[0].1->Dict_0;
    lemma_entry_of_decoded(args, vs, 0);
    lemma_strip_bytes(entry_value(args, vs[0].0)->0, m.node_id);
}

/// Reading back an error message from its own decoded encoding gives it again: the same
/// transaction id, kind and text.
pub proof fn lemma_error_round_trip<'a>(m: ErrorMessageView, root: Seq<(Seq<u8>, BencodeRef<'a>)>)
    requires
        decoded_as(root, error_message_value(m)->Dict_0),
    ensures
        error_from_parts(root, m.trans_id) == Ok::<ErrorMessageView, crate::dht::error::DhtFailure>(m),
{
    let vs = error_message_value(m)->Dict_0;
    assert(vs.len() == 3);
    assert forall|j: int, k: int| 0 <= j < k < vs.len() implies (#[trigger] vs[j]).0 != (#[trigger] vs[k]).0 by {
        assert(vs[j].0[0] != vs[k].0[0]);
    }
    lemma_entry_of_decoded(root, vs, 0);
    let r = entry_value(root, vs[0].0)->0;
    let msg_bytes = encode_utf8(m.message);
    match r {
        RefView::List(items, _) => {
            let sv = seq![BValue::Int(crate::dht::message::error::code_number(m.code) as int), BValue::Bytes(msg_bytes)];
            assert(strip(r) == BValue::List(sv));
            assert(strip(r)->List_0.len() == items.len());
            assert(items.len() == 2);
            assert(strip(r)->List_0[0] == strip(items[0]));
            assert(strip(r)->List_0[1] == strip(items[1]));
            assert(strip(items[0]) == BValue::Int(crate::dht::message::error::code_number(m.code) as int));
            assert(strip(items[1]) == BValue::Bytes(msg_bytes));
            lemma_strip_int(items[0], crate::dht::message::error::code_number(m.code) as int);
            lemma_strip_bytes(items[1], msg_bytes);
            vstd::utf8::encode_utf8_valid_utf8(m.message);
            vstd::utf8::encode_utf8_decode_utf8(m.message);
            assert(valid_utf8(msg_bytes));
            assert(decode_utf8(msg_bytes) == m.message);
        },
        _ => {
            assert(false);
        },
    }
}

} // verus!
