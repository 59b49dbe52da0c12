//! Answering the requests of other nodes: the reply to each request, and what it changes in
//! the routing table, the token store and the announce storage.
use vstd::prelude::*;

use crate::bencode::encode::{lemma_encode_entries_push, lemma_encode_items_push, push_bytes};
use crate::bencode::spec::{encode_entries, encode_items, encode_value, BValue};
use crate::dht::message::{
    message_type_key, message_type_key_bytes, node_id_key, node_id_key_bytes, nodes_key, nodes_key_bytes,
    response_type_key, response_type_key_bytes, token_key, token_key_bytes, transaction_id_key,
    transaction_id_key_bytes, values_key, values_key_bytes,
};
use crate::dht::message::announce_peer::{
    announce_response_value, AnnouncePeerRequest, AnnouncePeerRequestView, AnnouncePeerResponse,
    AnnouncePeerResponseView, ResponsePort,
};
use crate::dht::message::error::{error_message_value, ErrorCode, ErrorMessage, ErrorMessageView};
use crate::dht::message::find_node::{find_node_response_value, FindNodeResponse};
use crate::dht::message::ping::{ping_response_value, PingResponse};
use crate::dht::message::request::{RequestType, RequestValidate, RequestView};
use crate::dht::message::NODE_ID_LEN;
use crate::dht::routing::bucket::nodes_view;
use crate::dht::routing::node::{lemma_node_id_len, Node, NodeAddr, NodeId, NodeView, MAX_LAST_SEEN_MILLIS};
use crate::dht::routing::table::{closest_from, record_remote_request, shared_bits, table_add, RoutingTable, TableView};
use crate::dht::transaction::{be_value, ActionID, TransactionID};
use crate::dht::storage::{add_spec, contacts_of, remove_expired, AnnounceStorage};
use crate::dht::token::{refreshed, token_for, IpAddr, Token, TokenStore};

verus! {

/// Number of nodes handed out in the answer to a node lookup.
pub const MAX_NODES_RETURNED: usize = 8;

/// The compact form of a node: its id, its IPv4 octets and its port, big-endian. A node with
/// an IPv6 address has no compact form and contributes nothing.
pub open spec fn compact_node(n: NodeView) -> Seq<u8> {
    match n.addr {
        NodeAddr::V4(ip, port) => n.id + ip@ + seq![(port / 256) as u8, (port % 256) as u8],
        NodeAddr::V6(_, _) => Seq::empty(),
    }
}

/// The compact forms of `ns`, one after another.
pub open spec fn compact_nodes(ns: Seq<NodeView>) -> Seq<u8>
    decreases ns.len(),
{
    if ns.len() == 0 {
        Seq::empty()
    } else {
        compact_nodes(ns.drop_last()) + compact_node(ns.last())
    }
}

/// The first `MAX_NODES_RETURNED` of `s`, or all of them if there are fewer.
pub open spec fn first_returned(s: Seq<NodeView>) -> Seq<NodeView> {
    if s.len() <= MAX_NODES_RETURNED {
        s
    } else {
        s.take(MAX_NODES_RETURNED as int)
    }
}

/// The compact nodes answering a lookup of `target` at time `now`: the first of the closest
/// nodes of the table (see `closest_from`).
pub open spec fn closest_compact(t: TableView, target: Seq<u8>, now: int) -> Seq<u8> {
    let start = shared_bits(t.node_id, target);
    compact_nodes(first_returned(closest_from(t, start, start, now)))
}

/// The IP address of a node address.
pub open spec fn addr_ip(a: NodeAddr) -> IpAddr {
    match a {
        NodeAddr::V4(ip, _) => IpAddr::V4(ip),
        NodeAddr::V6(ip, _) => IpAddr::V6(ip),
    }
}

/// Where an announcing peer sent from `from` is reached: at `from` when the port is implied,
/// else at the IP address of `from` with the port given.
pub open spec fn connect_addr(from: NodeAddr, port: ResponsePort) -> NodeAddr {
    match port {
        ResponsePort::Implied => from,
        ResponsePort::Explicit(p) => match from {
            NodeAddr::V4(ip, _) => NodeAddr::V4(ip, p),
            NodeAddr::V6(ip, _) => NodeAddr::V6(ip, p),
        },
    }
}

/// The node that sent a request: with the id it gave, at the address it sent from.
pub open spec fn sender(node_id: Seq<u8>, from: NodeAddr, now: int) -> NodeView {
    NodeView { id: node_id, addr: from, last_request: None, last_response: Some(now), refresh_requests: 0 }
}

/// The bytes of an error message answering transaction `trans_id`.
pub open spec fn error_reply(trans_id: Seq<u8>, code: ErrorCode, text: Seq<char>) -> Seq<u8> {
    encode_value(error_message_value(ErrorMessageView { trans_id, code, message: text }))
}

/// Whether `token` is one we handed to `ip` under the secrets of `store`.
pub open spec fn token_accepted(token: Seq<u8>, ip: IpAddr, store: crate::dht::token::TokenStoreView) -> bool {
    token.len() == 20 && (token == token_for(ip, store.curr_secret) || token == token_for(ip, store.last_secret))
}

/// Whether `reply` is the message `bytes`.
pub open spec fn reply_is(reply: Option<Vec<u8>>, bytes: Seq<u8>) -> bool {
    reply matches Some(v) && v@ == bytes
}

/// What answering the announce `a` from `from` at time `now` does, given the token store
/// after the token check: the reply, and the announce storage afterwards.
pub open spec fn announce_outcome(
    a: AnnouncePeerRequestView,
    from: NodeAddr,
    now: int,
    own_id: Seq<u8>,
    store: crate::dht::token::TokenStoreView,
    storage: crate::dht::storage::StorageView,
) -> (Seq<u8>, crate::dht::storage::StorageView) {
    if !token_accepted(a.token, addr_ip(from), store) {
        (error_reply(a.trans_id, ErrorCode::ProtocolError, "Received An Invalid Token"@), storage)
    } else {
        let (stored, after) = add_spec(storage, a.info_hash, connect_addr(from, a.port), now, now);
        if stored {
            (encode_value(announce_response_value(AnnouncePeerResponseView { trans_id: a.trans_id, node_id: own_id })), after)
        } else {
            (error_reply(a.trans_id, ErrorCode::ServerError, "Announce Storage Is Full"@), after)
        }
    }
}

/// What answering requests reads and changes.
pub struct HandlerState {
    /// Whether requests are ignored.
    pub read_only: bool,
    /// Our routing table.
    pub table: RoutingTable,
    /// The secrets of the tokens we hand out.
    pub token_store: TokenStore,
    /// The contacts announced to us.
    pub storage: AnnounceStorage,
}

/// Appends the compact form of `node` (see `compact_node`).
fn push_compact_node(node: &Node, out: &mut Vec<u8>)
    ensures
        final(out)@ == old(out)@ + compact_node(node@),
{
    proof {
        lemma_node_id_len(*node);
    }
    match node.addr() {
        NodeAddr::V4(ip, port) => {
            let id = node.id();
            let mut i: usize = 0;
            while i < NODE_ID_LEN
                invariant
                    i <= NODE_ID_LEN,
                    id@ == node@.id,
                    node@.id.len() == NODE_ID_LEN,
                    out@ == old(out)@ + node@.id.take(i as int),
                decreases NODE_ID_LEN - i,
            {
                out.push(id[i]);
                assert(node@.id.take(i + 1) =~= node@.id.take(i as int).push(id@[i as int]));
                i = i + 1;
            }
            assert(node@.id.take(NODE_ID_LEN as int) =~= node@.id);
            out.push(ip[0]);
            out.push(ip[1]);
            out.push(ip[2]);
            out.push(ip[3]);
            out.push((port / 256) as u8);
            out.push((port % 256) as u8);
            assert(out@ =~= old(out)@ + compact_node(node@));
        },
        NodeAddr::V6(_, _) => {
            assert(out@ =~= old(out)@ + compact_node(node@));
        },
    }
}

/// The compact forms of the first `MAX_NODES_RETURNED` of `nodes` (see `first_returned`);
/// a whole number of compact nodes.
fn encode_first_nodes(nodes: &Vec<Node>) -> (out: Vec<u8>)
    ensures
        out@ == compact_nodes(first_returned(nodes_view(nodes@))),
        out@.len() % 26 == 0,
{
    let n: usize = if nodes.len() < MAX_NODES_RETURNED {
        nodes.len()
    } else {
        MAX_NODES_RETURNED
    };
    let ghost all = nodes_view(nodes@);
    let mut out: Vec<u8> = Vec::new();
    let mut i: usize = 0;
    assert(all.take(0) =~= Seq::<NodeView>::empty());
    while i < n
        invariant
            n <= nodes@.len(),
            n <= MAX_NODES_RETURNED,
            all == nodes_view(nodes@),
            i <= n,
            out@ == compact_nodes(all.take(i as int)),
            out@.len() % 26 == 0,
        decreases n - i,
    {
        proof {
            lemma_node_id_len(nodes@[i as int]);
        }
        push_compact_node(&nodes[i], &mut out);
        assert(all.take(i + 1).drop_last() =~= all.take(i as int));
        assert(all.take(i + 1).last() == nodes@[i as int]@);
        i = i + 1;
    }
    assert(all.take(n as int) =~= first_returned(all));
    out
}

/// The reply to an announce, with the storage and token store changes it makes (see
/// `announce_outcome`).
fn answer_announce(state: &mut HandlerState, a: &AnnouncePeerRequest, from: NodeAddr, now: i64) -> (reply: Vec<u8>)
    ensures
        final(state).read_only == old(state).read_only,
        final(state).table@ == old(state).table@,
        final(state).table.wf() == old(state).table.wf(),
        a@.token.len() == 20 ==> refreshed(old(state).token_store@, now as int, final(state).token_store@),
        a@.token.len() != 20 ==> final(state).token_store@ == old(state).token_store@,
        ({
            let (bytes, storage) = announce_outcome(
                a@,
                from,
                now as int,
                old(state).table@.node_id,
                final(state).token_store@,
                old(state).storage@,
            );
            reply@ == bytes && final(state).storage@ == storage
        }),
{
    let ip = match from {
        NodeAddr::V4(octets, _) => IpAddr::V4(octets),
        NodeAddr::V6(octets, _) => IpAddr::V6(octets),
    };
    let is_valid = match Token::new(a.token()) {
        Ok(t) => state.token_store.checkin_at(ip, t, now),
        Err(_) => false,
    };
    let connect = match a.port() {
        ResponsePort::Implied => from,
        ResponsePort::Explicit(port) => match from {
            NodeAddr::V4(octets, _) => NodeAddr::V4(octets, port),
            NodeAddr::V6(octets, _) => NodeAddr::V6(octets, port),
        },
    };
    let trans_id = a.transaction_id();
    if !is_valid {
        let msg = ErrorMessage::new(
            vstd::slice::slice_to_vec(trans_id),
            ErrorCode::ProtocolError,
            String::from_str("Received An Invalid Token"),
        );
        return msg.encode();
    }
    let validate = RequestValidate::new(trans_id);
    let info_hash = match validate.validate_node_id(a.info_hash()) {
        Ok(h) => h,
        Err(_) => {
            assert(false);
            return Vec::new();
        },
    };
    if state.storage.add_with(info_hash, connect, now, now) {
        let own_id = state.table.node_id();
        match AnnouncePeerResponse::new(trans_id, own_id.as_slice()) {
            Ok(rsp) => rsp.encode(),
            Err(_) => {
                assert(false);
                Vec::new()
            },
        }
    } else {
        let msg = ErrorMessage::new(
            vstd::slice::slice_to_vec(trans_id),
            ErrorCode::ServerError,
            String::from_str("Announce Storage Is Full"),
        );
        msg.encode()
    }
}

/// Answers the request `req` sent from `from` at time `now`, and returns the reply to send
/// back, if any.
///
/// Nothing is answered while `read_only` holds, nor a data request. Otherwise the sender,
/// where the table holds it, is marked as having sent us a request (see
/// `record_remote_request`); a ping is answered with our id; a node lookup with our id and
/// the compact forms of the closest nodes to its target (see `closest_compact`); a peers
/// request as `handle_get_peers_at` answers it; an announce
/// has its token checked against the ones we handed to the sender's IP address and, when it
/// is valid, its contact stored (see `announce_outcome`).
pub fn handle_request_at(state: &mut HandlerState, req: &RequestType, from: NodeAddr, now: i64) -> (reply: Option<
    Vec<u8>,
>)
    requires
        old(state).table.wf(),
    ensures
        final(state).table.wf(),
        final(state).read_only == old(state).read_only,
        old(state).read_only ==> reply is None && final(state).table@ == old(state).table@
            && final(state).token_store@ == old(state).token_store@ && final(state).storage@ == old(state).storage@,
        !old(state).read_only ==> match req@ {
            RequestView::Ping { trans_id, node_id } => {
                &&& final(state).table@ == record_remote_request(old(state).table@, sender(node_id, from, now as int), now as int)
                &&& final(state).token_store@ == old(state).token_store@
                &&& final(state).storage@ == old(state).storage@
                &&& reply_is(reply, encode_value(ping_response_value(trans_id, old(state).table@.node_id)))
            },
            RequestView::FindNode { trans_id, node_id, target_id } => {
                &&& final(state).table@ == record_remote_request(old(state).table@, sender(node_id, from, now as int), now as int)
                &&& final(state).token_store@ == old(state).token_store@
                &&& final(state).storage@ == old(state).storage@
                &&& reply_is(
                    reply,
                    encode_value(
                        find_node_response_value(
                            trans_id,
                            old(state).table@.node_id,
                            closest_compact(final(state).table@, target_id, now as int),
                        ),
                    ),
                )
            },
            RequestView::GetPeers { trans_id, node_id, info_hash } => {
                &&& final(state).table@ == record_remote_request(old(state).table@, sender(node_id, from, now as int), now as int)
                &&& final(state).storage@ == remove_expired(old(state).storage@, now as int)
                &&& refreshed(old(state).token_store@, now as int, final(state).token_store@)
                &&& reply_is(
                    reply,
                    encode_value(
                        get_peers_response_value(
                            trans_id,
                            old(state).table@.node_id,
                            closest_compact(final(state).table@, info_hash, now as int),
                            token_for(addr_ip(from), final(state).token_store@.curr_secret),
                            compact_peers(contacts_of(final(state).storage@.contacts, info_hash)),
                        ),
                    ),
                )
            },
            RequestView::AnnouncePeer(a) => {
                &&& final(state).table@ == record_remote_request(old(state).table@, sender(a.node_id, from, now as int), now as int)
                &&& a.token.len() == 20 ==> refreshed(old(state).token_store@, now as int, final(state).token_store@)
                &&& a.token.len() != 20 ==> final(state).token_store@ == old(state).token_store@
                &&& ({
                    let (bytes, storage) = announce_outcome(
                        a,
                        from,
                        now as int,
                        old(state).table@.node_id,
                        final(state).token_store@,
                        old(state).storage@,
                    );
                    reply_is(reply, bytes) && final(state).storage@ == storage
                })
            },
            RequestView::PutData { .. } => {
                &&& reply is None
                &&& final(state).table@ == old(state).table@
                &&& final(state).token_store@ == old(state).token_store@
                &&& final(state).storage@ == old(state).storage@
            },
        },
{
    if state.read_only {
        return None;
    }
    match req {
        RequestType::Ping(p) => {
            let node = Node::as_good_at(p.node_id(), from, now);
            state.table.remote_request_at(&node, now);
            let rsp = PingResponse::new(p.transaction_id(), state.table.node_id());
            Some(rsp.encode())
        },
        RequestType::FindNode(f) => {
            let node = Node::as_good_at(f.node_id(), from, now);
            state.table.remote_request_at(&node, now);
            let closest = state.table.closest_nodes_at(&f.target_id(), now);
            let bytes = encode_first_nodes(&closest);
            match FindNodeResponse::new(f.transaction_id(), state.table.node_id(), bytes.as_slice()) {
                Ok(rsp) => Some(rsp.encode()),
                Err(_) => {
                    assert(false);
                    None
                },
            }
        },
        RequestType::GetPeers(g) => handle_get_peers_at(state, g.transaction_id(), g.node_id(), g.info_hash(), from, now),
        RequestType::AnnouncePeer(a) => {
            let validate = RequestValidate::new(a.transaction_id());
            let node_id = match validate.validate_node_id(a.node_id()) {
                Ok(id) => id,
                Err(_) => {
                    assert(false);
                    return None;
                },
            };
            let node = Node::as_good_at(node_id, from, now);
            state.table.remote_request_at(&node, now);
            Some(answer_announce(state, a, from, now))
        },
        RequestType::PutData(_) => None,
    }
}

/// A node heard of in an answer, as the table first takes it: questionable at time `now`.
pub open spec fn questionable(id: Seq<u8>, addr: NodeAddr, now: int) -> NodeView {
    NodeView { id, addr, last_request: None, last_response: Some(now - MAX_LAST_SEEN_MILLIS), refresh_requests: 0 }
}

/// Table `t` after adding each of `ns` in turn at time `now` (see `table_add`).
pub open spec fn add_each(t: TableView, ns: Seq<NodeView>, now: int) -> TableView
    decreases ns.len(),
{
    if ns.len() == 0 {
        t
    } else {
        let t0 = add_each(t, ns.drop_last(), now);
        table_add(t0, ns.last(), now, t0.buckets.len() as int)
    }
}

/// The questionable models of the nodes of an answer.
pub open spec fn answered_nodes(nodes: Seq<(NodeId, NodeAddr)>, now: int) -> Seq<NodeView> {
    nodes.map_values(|n: (NodeId, NodeAddr)| questionable(n.0@, n.1, now))
}

/// Takes in the answer to a node lookup from `sender_id` at `from`, at time `now`: each node
/// it gives is added as questionable, in order; then the sender is added as good, unless it
/// is one of the routers we bootstrap from.
pub fn handle_find_node_response_at(
    table: &mut RoutingTable,
    sender_id: NodeId,
    from: NodeAddr,
    from_router: bool,
    nodes: &Vec<(NodeId, NodeAddr)>,
    now: i64,
)
    requires
        old(table).wf(),
        now >= i64::MIN + MAX_LAST_SEEN_MILLIS,
    ensures
        final(table).wf(),
        ({
            let t1 = add_each(old(table)@, answered_nodes(nodes@, now as int), now as int);
            if from_router {
                final(table)@ == t1
            } else {
                final(table)@ == table_add(t1, sender(sender_id@, from, now as int), now as int, t1.buckets.len() as int)
            }
        }),
{
    let ghost t = table@;
    let ghost all = answered_nodes(nodes@, now as int);
    let mut i: usize = 0;
    while i < nodes.len()
        invariant
            table.wf(),
            all == answered_nodes(nodes@, now as int),
            i <= nodes@.len(),
            table@ == add_each(t, all.take(i as int), now as int),
            now >= i64::MIN + MAX_LAST_SEEN_MILLIS,
        decreases nodes@.len() - i,
    {
        let (id, addr) = nodes[i];
        let node = Node::as_questionable_at(id, addr, now);
        table.add_node_at(node, now);
        proof {
            assert(all.take(i + 1).drop_last() =~= all.take(i as int));
            assert(all.take(i + 1).last() == node@);
        }
        i = i + 1;
    }
    assert(all.take(i as int) =~= all);
    if !from_router {
        table.add_node_at(Node::as_good_at(sender_id, from, now), now);
    }
}

/// What waits for the bootstrap to end: a lookup of an info hash (and whether to announce),
/// or the table refresh with the id it is scheduled under.
#[derive(Debug, Clone, Copy)]
pub enum PostBootstrapAction {
    /// A lookup to start.
    Lookup(NodeId, bool),
    /// The refresh to schedule.
    Refresh(TransactionID),
}

/// The bootstrap ended: we are no longer bootstrapping, and every action that waited for it
/// is handed back, in the order it was queued, to be started now; none waits any more.
pub fn complete_bootstrap(bootstrapping: &mut bool, future_actions: &mut Vec<PostBootstrapAction>) -> (r: Vec<
    PostBootstrapAction,
>)
    ensures
        !*final(bootstrapping),
        final(future_actions)@.len() == 0,
        r@ == old(future_actions)@,
{
    *bootstrapping = false;
    let mut r: Vec<PostBootstrapAction> = Vec::new();
    r.append(future_actions);
    r
}

/// The compact form of a peer's address: its IPv4 octets and its port, big-endian. An IPv6
/// address has none.
pub open spec fn compact_peer(a: NodeAddr) -> Option<Seq<u8>> {
    match a {
        NodeAddr::V4(ip, port) => Some(ip@ + seq![(port / 256) as u8, (port % 256) as u8]),
        NodeAddr::V6(_, _) => None,
    }
}

/// The compact forms of the peers `addrs` that have one, as byte strings, in order.
pub open spec fn compact_peers(addrs: Seq<NodeAddr>) -> Seq<BValue>
    decreases addrs.len(),
{
    if addrs.len() == 0 {
        Seq::empty()
    } else {
        let r = compact_peers(addrs.drop_last());
        match compact_peer(addrs.last()) {
            Some(b) => r.push(BValue::Bytes(b)),
            None => r,
        }
    }
}

/// The arguments of the answer to a peers request (see `get_peers_response_value`).
pub open spec fn get_peers_args(node_id: Seq<u8>, nodes: Seq<u8>, token: Seq<u8>, values: Seq<BValue>) -> Seq<(Seq<u8>, BValue)> {
    let base = seq![
        (node_id_key(), BValue::Bytes(node_id)),
        (nodes_key(), BValue::Bytes(nodes)),
        (token_key(), BValue::Bytes(token)),
    ];
    if values.len() > 0 {
        base.push((values_key(), BValue::List(values)))
    } else {
        base
    }
}

/// The bencode value of the answer to a peers request: our id, the compact nodes closest to
/// the info hash (always given), the announce token, and the compact peers when there are
/// any.
pub open spec fn get_peers_response_value(
    trans_id: Seq<u8>,
    node_id: Seq<u8>,
    nodes: Seq<u8>,
    token: Seq<u8>,
    values: Seq<BValue>,
) -> BValue {
    BValue::Dict(
        seq![
            (response_type_key(), BValue::Dict(get_peers_args(node_id, nodes, token, values))),
            (transaction_id_key(), BValue::Bytes(trans_id)),
            (message_type_key(), BValue::Bytes(response_type_key())),
        ],
    )
}

/// The compact forms of the peers that have one (see `compact_peers`).
fn compact_peer_list(addrs: &Vec<NodeAddr>) -> (r: Vec<Vec<u8>>)
    ensures
        r@.map_values(|b: Vec<u8>| BValue::Bytes(b@)) == compact_peers(addrs@),
{
    let mut out: Vec<Vec<u8>> = Vec::new();
    let mut i: usize = 0;
    while i < addrs.len()
        invariant
            i <= addrs@.len(),
            out@.map_values(|b: Vec<u8>| BValue::Bytes(b@)) == compact_peers(addrs@.take(i as int)),
        decreases addrs@.len() - i,
    {
        proof {
            assert(addrs@.take(i + 1).drop_last() =~= addrs@.take(i as int));
            assert(addrs@.take(i + 1).last() == addrs@[i as int]);
        }
        match addrs[i] {
            NodeAddr::V4(ip, port) => {
                let b: Vec<u8> = vec![ip[0], ip[1], ip[2], ip[3], (port / 256) as u8, (port % 256) as u8];
                let ghost before = out@.map_values(|b: Vec<u8>| BValue::Bytes(b@));
                out.push(b);
                assert(b@ =~= ip@ + seq![(port / 256) as u8, (port % 256) as u8]);
                assert(out@.map_values(|b: Vec<u8>| BValue::Bytes(b@)) =~= before.push(BValue::Bytes(b@)));
            },
            NodeAddr::V6(_, _) => {},
        }
        i = i + 1;
    }
    assert(addrs@.take(i as int) =~= addrs@);
    out
}

/// Appends the bencode of the list of the byte strings `items`.
fn push_bytes_list(items: &Vec<Vec<u8>>, out: &mut Vec<u8>)
    ensures
        final(out)@ == old(out)@ + encode_value(BValue::List(items@.map_values(|b: Vec<u8>| BValue::Bytes(b@)))),
{
    let ghost vs = items@.map_values(|b: Vec<u8>| BValue::Bytes(b@));
    out.push(108u8);
    let mut i: usize = 0;
    while i < items.len()
        invariant
            i <= items@.len(),
            vs == items@.map_values(|b: Vec<u8>| BValue::Bytes(b@)),
            out@ == old(out)@ + seq![108u8] + encode_items(vs.take(i as int)),
        decreases items@.len() - i,
    {
        push_bytes(items[i].as_slice(), out);
        proof {
            lemma_encode_items_push(vs.take(i as int), vs[i as int]);
            assert(vs.take(i + 1) =~= vs.take(i as int).push(vs[i as int]));
        }
        i = i + 1;
    }
    out.push(101u8);
    assert(vs.take(i as int) =~= vs);
    assert(out@ =~= old(out)@ + encode_value(BValue::List(vs)));
}

/// Appends the bencode of the arguments of the answer to a peers request (see
/// `get_peers_args`).
fn push_get_peers_args(own_id: &NodeId, nodes: &Vec<u8>, token: &[u8], values: &Vec<Vec<u8>>, out: &mut Vec<u8>)
    ensures
        final(out)@ == old(out)@ + encode_value(
            BValue::Dict(get_peers_args(own_id@, nodes@, token@, values@.map_values(|b: Vec<u8>| BValue::Bytes(b@)))),
        ),
{
    let ghost args = get_peers_args(own_id@, nodes@, token@, values@.map_values(|b: Vec<u8>| BValue::Bytes(b@)));
    let ghost mark = out@;
    out.push(100u8);
    push_bytes(node_id_key_bytes().as_slice(), out);
    push_bytes(own_id.as_slice(), out);
    push_bytes(nodes_key_bytes().as_slice(), out);
    push_bytes(nodes.as_slice(), out);
    push_bytes(token_key_bytes().as_slice(), out);
    push_bytes(token, out);
    proof {
        lemma_encode_entries_push(Seq::empty(), args[0].0, args[0].1);
        lemma_encode_entries_push(args.take(1), args[1].0, args[1].1);
        lemma_encode_entries_push(args.take(2), args[2].0, args[2].1);
        assert(Seq::<(Seq<u8>, BValue)>::empty().push(args[0]) =~= args.take(1));
        assert(args.take(1).push(args[1]) =~= args.take(2));
        assert(args.take(2).push(args[2]) =~= args.take(3));
        assert(out@ =~= mark + seq![100u8] + encode_entries(args.take(3)));
    }
    if values.len() > 0 {
        push_bytes(values_key_bytes().as_slice(), out);
        push_bytes_list(values, out);
        proof {
            lemma_encode_entries_push(args.take(3), args[3].0, args[3].1);
            assert(args.take(3).push(args[3]) =~= args);
        }
    } else {
        assert(args.take(3) =~= args);
    }
    out.push(101u8);
    assert(out@ =~= mark + encode_value(BValue::Dict(args)));
}

/// The bencode of the answer to a peers request (see `get_peers_response_value`).
fn encode_get_peers_response(trans_id: &[u8], own_id: &NodeId, nodes: &Vec<u8>, token: &[u8], values: &Vec<Vec<u8>>) -> (out: Vec<
    u8,
>)
    ensures
        out@ == encode_value(
            get_peers_response_value(trans_id@, own_id@, nodes@, token@, values@.map_values(|b: Vec<u8>| BValue::Bytes(b@))),
        ),
{
    let ghost v = get_peers_response_value(trans_id@, own_id@, nodes@, token@, values@.map_values(|b: Vec<u8>| BValue::Bytes(b@)));
    let ghost outer = v->Dict_0;
    let mut out: Vec<u8> = Vec::new();
    out.push(100u8);
    push_bytes(response_type_key_bytes().as_slice(), &mut out);
    push_get_peers_args(own_id, nodes, token, values, &mut out);
    proof {
        lemma_encode_entries_push(Seq::empty(), outer[0].0, outer[0].1);
        assert(Seq::<(Seq<u8>, BValue)>::empty().push(outer[0]) =~= outer.take(1));
        assert(out@ =~= seq![100u8] + encode_entries(outer.take(1)));
    }
    push_bytes(transaction_id_key_bytes().as_slice(), &mut out);
    push_bytes(trans_id, &mut out);
    proof {
        lemma_encode_entries_push(outer.take(1), outer[1].0, outer[1].1);
        assert(outer.take(1).push(outer[1]) =~= outer.take(2));
    }
    push_bytes(message_type_key_bytes().as_slice(), &mut out);
    push_bytes(response_type_key_bytes().as_slice(), &mut out);
    proof {
        lemma_encode_entries_push(outer.take(2), outer[2].0, outer[2].1);
        assert(outer.take(2).push(outer[2]) =~= outer);
    }
    out.push(101u8);
    assert(out@ =~= encode_value(v));
    out
}

/// Answers a peers request for `info_hash` from node `node_id` at `from`, of transaction
/// `trans_id`, at time `now`; nothing while `read_only`.
///
/// The sender, where the table holds it, is marked as having sent us a request; the
/// announced peers of the info hash are looked up (expired ones go first); and the answer
/// gives our id, the compact forms of the closest nodes to the info hash (always, peers or
/// not), a token for the sender's IP address, and the compact peers when there are any (see
/// `get_peers_response_value`).
pub fn handle_get_peers_at(
    state: &mut HandlerState,
    trans_id: &[u8],
    node_id: NodeId,
    info_hash: NodeId,
    from: NodeAddr,
    now: i64,
) -> (reply: Option<Vec<u8>>)
    requires
        old(state).table.wf(),
    ensures
        final(state).table.wf(),
        final(state).read_only == old(state).read_only,
        old(state).read_only ==> reply is None && final(state).table@ == old(state).table@
            && final(state).token_store@ == old(state).token_store@ && final(state).storage@ == old(state).storage@,
        !old(state).read_only ==> {
            &&& final(state).table@ == record_remote_request(old(state).table@, sender(node_id@, from, now as int), now as int)
            &&& final(state).storage@ == remove_expired(old(state).storage@, now as int)
            &&& refreshed(old(state).token_store@, now as int, final(state).token_store@)
            &&& reply_is(
                reply,
                encode_value(
                    get_peers_response_value(
                        trans_id@,
                        old(state).table@.node_id,
                        closest_compact(final(state).table@, info_hash@, now as int),
                        token_for(addr_ip(from), final(state).token_store@.curr_secret),
                        compact_peers(contacts_of(final(state).storage@.contacts, info_hash@)),
                    ),
                ),
            )
        },
{
    if state.read_only {
        return None;
    }
    let node = Node::as_good_at(node_id, from, now);
    state.table.remote_request_at(&node, now);
    let peers = state.storage.find(&info_hash, now);
    let values = compact_peer_list(&peers);
    let closest = state.table.closest_nodes_at(&info_hash, now);
    let nodes = encode_first_nodes(&closest);
    let ip = match from {
        NodeAddr::V4(octets, _) => IpAddr::V4(octets),
        NodeAddr::V6(octets, _) => IpAddr::V6(octets),
    };
    let token = state.token_store.checkout_at(ip, now);
    let own_id = state.table.node_id();
    Some(encode_get_peers_response(trans_id, &own_id, &nodes, token.as_ref(), &values))
}

/// The kind of an action on the routing table.
#[derive(Copy, Clone, PartialEq, Eq, Structural, Debug)]
pub enum ActionKind {
    /// A lookup of an info hash.
    Lookup,
    /// The table refresh.
    Refresh,
    /// The table bootstrap.
    Bootstrap,
}

/// The actions of `s`, by the number of their action id; a later entry for a number replaces
/// an earlier one.
pub open spec fn actions_map(s: Seq<(ActionID, ActionKind)>) -> Map<u64, ActionKind>
    decreases s.len(),
{
    if s.len() == 0 {
        Map::empty()
    } else {
        actions_map(s.drop_last()).insert(s.last().0.value(), s.last().1)
    }
}

/// The actions running on the routing table, by action id.
pub struct TableActions {
    entries: Vec<(ActionID, ActionKind)>,
}

impl View for TableActions {
    type V = Map<u64, ActionKind>;

    closed spec fn view(&self) -> Map<u64, ActionKind> {
        actions_map(self.entries@)
    }
}

impl TableActions {
    /// No action runs.
    pub fn new() -> (r: TableActions)
        ensures
            r@ == Map::<u64, ActionKind>::empty(),
    {
        TableActions { entries: Vec::new() }
    }

    /// The action `action` is of kind `kind` from now on.
    pub fn insert(&mut self, action: ActionID, kind: ActionKind)
        ensures
            final(self)@ == old(self)@.insert(action.value(), kind),
    {
        let ghost s = self.entries@;
        self.entries.push((action, kind));
        assert(self.entries@.drop_last() =~= s);
    }

    /// The action `action` runs no more.
    pub fn remove(&mut self, action: ActionID)
        ensures
            final(self)@ == old(self)@.remove(action.value()),
    {
        let ghost s = self.entries@;
        let a = action.value_of();
        let mut kept: Vec<(ActionID, ActionKind)> = Vec::new();
        let mut i: usize = 0;
        while i < self.entries.len()
            invariant
                s == self.entries@,
                i <= s.len(),
                a == action.value(),
                actions_map(kept@) == actions_map(s.take(i as int)).remove(a),
            decreases s.len() - i,
        {
            let e = self.entries[i];
            assert(s.take(i + 1).drop_last() =~= s.take(i as int));
            assert(s.take(i + 1).last() == e);
            if e.0.value_of() != a {
                let ghost k0 = kept@;
                kept.push(e);
                assert(kept@.drop_last() =~= k0);
                assert(actions_map(kept@) =~= actions_map(s.take(i + 1)).remove(a));
            } else {
                assert(actions_map(kept@) =~= actions_map(s.take(i + 1)).remove(a));
            }
            i = i + 1;
        }
        assert(s.take(i as int) =~= s);
        self.entries = kept;
    }

    /// The kind of the action `action`, if it runs.
    pub fn kind_of(&self, action: u64) -> (r: Option<ActionKind>)
        ensures
            r == (if self@.dom().contains(action) {
                Some(self@[action])
            } else {
                None
            }),
    {
        let ghost s = self.entries@;
        let mut found: Option<ActionKind> = None;
        let mut i: usize = 0;
        while i < self.entries.len()
            invariant
                s == self.entries@,
                i <= s.len(),
                found == (if actions_map(s.take(i as int)).dom().contains(action) {
                    Some(actions_map(s.take(i as int))[action])
                } else {
                    None
                }),
            decreases s.len() - i,
        {
            let e = self.entries[i];
            assert(s.take(i + 1).drop_last() =~= s.take(i as int));
            assert(s.take(i + 1).last() == e);
            if e.0.value_of() == action {
                found = Some(e.1);
            }
            i = i + 1;
        }
        assert(s.take(i as int) =~= s);
        found
    }
}

/// What an incoming message is, by its kind (`y`) and, for an answer, by the action its
/// transaction id belongs to.
#[derive(Copy, Clone, PartialEq, Eq, Structural, Debug)]
pub enum IncomingKind {
    /// A request.
    Request,
    /// An answer to a node lookup.
    FindNodeResponse,
    /// An answer to a peers request.
    GetPeersResponse,
    /// An answer we expect nothing of.
    OtherResponse,
    /// An error message.
    Error,
    /// Not a message of a known kind.
    Invalid,
}

/// The answer a transaction id leads us to expect.
#[derive(Copy, Clone, PartialEq, Eq, Structural, Debug)]
pub enum ExpectedResponse {
    /// The answer to a peers request, sent by a lookup.
    GetPeers,
    /// The answer to a node lookup, sent by the refresh or the bootstrap.
    FindNode,
    /// Nothing: the id is not one of ours, or its action no longer runs.
    Nothing,
}

/// The number of the action of the transaction id with bytes `trans_id`, if they are those
/// of a transaction id.
pub open spec fn action_number(trans_id: Seq<u8>) -> Option<u64> {
    if trans_id.len() == 8 {
        Some((be_value(trans_id) / 0x100_0000) as u64)
    } else {
        None
    }
}

/// The answer the transaction id `trans_id` leads us to expect while the actions `actions`
/// run: the answer to a peers request for a lookup, to a node lookup for the refresh or the
/// bootstrap, and none otherwise.
pub open spec fn expected_for(actions: Map<u64, ActionKind>, trans_id: Seq<u8>) -> ExpectedResponse {
    match action_number(trans_id) {
        None => ExpectedResponse::Nothing,
        Some(a) => if !actions.dom().contains(a) {
            ExpectedResponse::Nothing
        } else {
            match actions[a] {
                ActionKind::Lookup => ExpectedResponse::GetPeers,
                ActionKind::Refresh => ExpectedResponse::FindNode,
                ActionKind::Bootstrap => ExpectedResponse::FindNode,
            }
        },
    }
}

/// The answer `trans_id` leads us to expect (see `expected_for`).
pub fn expected_response(actions: &TableActions, trans_id: &[u8]) -> (r: ExpectedResponse)
    ensures
        r == expected_for(actions@, trans_id@),
{
    match TransactionID::from_bytes(trans_id) {
        None => ExpectedResponse::Nothing,
        Some(t) => {
            let a = t.action_id();
            match actions.kind_of(a.value_of()) {
                None => ExpectedResponse::Nothing,
                Some(ActionKind::Lookup) => ExpectedResponse::GetPeers,
                Some(ActionKind::Refresh) => ExpectedResponse::FindNode,
                Some(ActionKind::Bootstrap) => ExpectedResponse::FindNode,
            }
        },
    }
}

/// What is done with an incoming message.
#[derive(Copy, Clone, PartialEq, Eq, Structural, Debug)]
pub enum Route {
    /// It is dropped.
    Drop,
    /// It is a request to answer (see `handle_request_at` and `handle_get_peers_at`).
    AnswerRequest,
    /// An answer to a node lookup of the refresh: its nodes, and its sender as good, go into
    /// the table.
    RefreshResponse,
    /// An answer to a node lookup of the bootstrap: its nodes go into the table, its sender
    /// unless a router, and the bootstrap takes the answer.
    BootstrapResponse,
    /// An answer to a peers request of a lookup: the lookup takes the answer.
    LookupResponse,
    /// An answer to a node lookup whose action is not the refresh or the bootstrap: only its
    /// nodes go into the table.
    UnmatchedFindNode,
}

/// What is done with an incoming message of kind `kind` and transaction id `trans_id`, while
/// the actions `actions` run: requests are answered unless we are `read_only`; an answer to
/// a node lookup goes to the refresh or the bootstrap whose id it carries (its nodes are
/// taken in whatever the action); an answer to a peers request goes to its lookup; anything
/// else is dropped.
pub open spec fn route_for(read_only: bool, actions: Map<u64, ActionKind>, kind: IncomingKind, trans_id: Seq<u8>) -> Route {
    match kind {
        IncomingKind::Request => if read_only {
            Route::Drop
        } else {
            Route::AnswerRequest
        },
        IncomingKind::FindNodeResponse => match action_number(trans_id) {
            Some(a) if actions.dom().contains(a) && actions[a] == ActionKind::Refresh => Route::RefreshResponse,
            Some(a) if actions.dom().contains(a) && actions[a] == ActionKind::Bootstrap => Route::BootstrapResponse,
            _ => Route::UnmatchedFindNode,
        },
        IncomingKind::GetPeersResponse => match action_number(trans_id) {
            Some(a) if actions.dom().contains(a) && actions[a] == ActionKind::Lookup => Route::LookupResponse,
            _ => Route::Drop,
        },
        _ => Route::Drop,
    }
}

/// What is done with an incoming message (see `route_for`).
pub fn route_message(read_only: bool, actions: &TableActions, kind: IncomingKind, trans_id: &[u8]) -> (r: Route)
    ensures
        r == route_for(read_only, actions@, kind, trans_id@),
{
    match kind {
        IncomingKind::Request => if read_only {
            Route::Drop
        } else {
            Route::AnswerRequest
        },
        IncomingKind::FindNodeResponse => {
            let k = match TransactionID::from_bytes(trans_id) {
                Some(t) => actions.kind_of(t.action_id().value_of()),
                None => None,
            };
            match k {
                Some(ActionKind::Refresh) => Route::RefreshResponse,
                Some(ActionKind::Bootstrap) => Route::BootstrapResponse,
                _ => Route::UnmatchedFindNode,
            }
        },
        IncomingKind::GetPeersResponse => {
            let k = match TransactionID::from_bytes(trans_id) {
                Some(t) => actions.kind_of(t.action_id().value_of()),
                None => None,
            };
            match k {
                Some(ActionKind::Lookup) => Route::LookupResponse,
                _ => Route::Drop,
            }
        },
        _ => Route::Drop,
    }
}

/// The kind of the message whose dictionary holds `kind_key` under `y` (see `IncomingKind`):
/// `q` a request, `e` an error, `r` an answer of the kind `expected` says, anything else
/// invalid.
pub open spec fn incoming_kind_for(kind_key: Option<Seq<u8>>, expected: ExpectedResponse) -> IncomingKind {
    match kind_key {
        Some(k) => if k == seq![113u8] {
            IncomingKind::Request
        } else if k == seq![101u8] {
            IncomingKind::Error
        } else if k == seq![114u8] {
            match expected {
                ExpectedResponse::GetPeers => IncomingKind::GetPeersResponse,
                ExpectedResponse::FindNode => IncomingKind::FindNodeResponse,
                ExpectedResponse::Nothing => IncomingKind::OtherResponse,
            }
        } else {
            IncomingKind::Invalid
        },
        None => IncomingKind::Invalid,
    }
}

/// The kind of a message (see `incoming_kind_for`).
pub fn incoming_kind(kind_key: Option<&[u8]>, expected: ExpectedResponse) -> (r: IncomingKind)
    ensures
        r == incoming_kind_for(
            match kind_key {
                Some(k) => Some(k@),
                None => None,
            },
            expected,
        ),
{
    match kind_key {
        None => IncomingKind::Invalid,
        Some(k) => {
            if k.len() == 1 && k[0] == 113u8 {
                assert(k@ =~= seq![113u8]);
                IncomingKind::Request
            } else if k.len() == 1 && k[0] == 101u8 {
                assert(k@ =~= seq![101u8]);
                IncomingKind::Error
            } else if k.len() == 1 && k[0] == 114u8 {
                assert(k@ =~= seq![114u8]);
                match expected {
                    ExpectedResponse::GetPeers => IncomingKind::GetPeersResponse,
                    ExpectedResponse::FindNode => IncomingKind::FindNodeResponse,
                    ExpectedResponse::Nothing => IncomingKind::OtherResponse,
                }
            } else {
                proof {
                    if k@ == seq![113u8] || k@ == seq![101u8] || k@ == seq![114u8] {
                        assert(k@.len() == 1);
                        assert(k@[0] == k[0]);
                    }
                }
                IncomingKind::Invalid
            }
        },
    }
}

/// The port of a node address.
pub open spec fn addr_port(a: NodeAddr) -> u16 {
    match a {
        NodeAddr::V4(_, p) => p,
        NodeAddr::V6(_, p) => p,
    }
}

/// An announce with a valid token, made while the announce storage has room, is answered
/// with success; looking the info hash up at that time then finds the announcing peer: at
/// the very address (IP and port) the announce came from when the port is implied, and at
/// that IP address with the port given otherwise.
pub proof fn lemma_accepted_announce_stores_sender(
    a: AnnouncePeerRequestView,
    from: NodeAddr,
    now: int,
    own_id: Seq<u8>,
    store: crate::dht::token::TokenStoreView,
    storage: crate::dht::storage::StorageView,
)
    requires
        token_accepted(a.token, addr_ip(from), store),
        remove_expired(storage, now).expires.len() < crate::dht::storage::MAX_ITEMS_STORED,
    ensures
        announce_outcome(a, from, now, own_id, store, storage).0 == encode_value(
            announce_response_value(AnnouncePeerResponseView { trans_id: a.trans_id, node_id: own_id }),
        ),
        a.port is Implied ==> contacts_of(
            remove_expired(announce_outcome(a, from, now, own_id, store, storage).1, now).contacts,
            a.info_hash,
        ).contains(from),
        a.port matches ResponsePort::Explicit(p) ==> exists|c: NodeAddr|
            #![trigger addr_port(c)]
            contacts_of(remove_expired(announce_outcome(a, from, now, own_id, store, storage).1, now).contacts, a.info_hash).contains(c)
                && addr_ip(c) == addr_ip(from) && addr_port(c) == p,
{
    let c = connect_addr(from, a.port);
    assert(add_spec(storage, a.info_hash, c, now, now).0);
    crate::dht::storage::lemma_stored_announce_is_found(storage, a.info_hash, c, now, now);
    if let ResponsePort::Explicit(p) = a.port {
        assert(addr_port(c) == p && addr_ip(c) == addr_ip(from));
    }
}

} // verus!
