use vstd::prelude::*;

use crate::bencode::order::bytes_equal;

verus! {

/// Length of a node id in bytes.
pub const NODE_ID_LEN: usize = 20;

/// A node id (the SHA-1 sized identifier of a DHT node, or an info hash).
pub type NodeId = [u8; 20];

/// Milliseconds after which a node that has not responded (or requested) is no longer good.
pub const MAX_LAST_SEEN_MILLIS: i64 = 900_000;

/// Requests without answer after which a questionable node becomes bad.
pub const MAX_REFRESH_REQUESTS: usize = 2;

/// The current time, in milliseconds since the Unix epoch (`chrono::Utc::now`).
#[verifier::external_body]
pub(crate) fn now_millis() -> i64 {
    chrono::Utc::now().timestamp_millis()
}

/// Status of a node; `Bad < Questionable < Good`.
#[derive(Copy, Clone, PartialEq, Eq, Structural, Hash, Debug, PartialOrd, Ord)]
pub enum NodeStatus {
    /// The node never answered, or stopped answering.
    Bad,
    /// The node answered before, but not recently.
    Questionable,
    /// The node answered, or asked us something, recently.
    Good,
}

/// Rank of a status in the order `Bad < Questionable < Good`.
pub open spec fn status_rank(s: NodeStatus) -> int {
    match s {
        NodeStatus::Bad => 0,
        NodeStatus::Questionable => 1,
        NodeStatus::Good => 2,
    }
}

/// Rank of a status in the order `Bad < Questionable < Good`.
pub fn rank(s: NodeStatus) -> (r: u8)
    ensures
        r == status_rank(s),
{
    match s {
        NodeStatus::Bad => 0,
        NodeStatus::Questionable => 1,
        NodeStatus::Good => 2,
    }
}

/// Address of a node: an IPv4 or IPv6 address and a port.
#[derive(Copy, Clone, PartialEq, Eq, Hash, Debug)]
pub enum NodeAddr {
    /// IPv4 octets and port.
    V4([u8; 4], u16),
    /// IPv6 octets and port.
    V6([u8; 16], u16),
}

/// Whether two addresses are the same.
pub fn same_addr(a: &NodeAddr, b: &NodeAddr) -> (r: bool)
    ensures
        r == (a == b),
{
    match (a, b) {
        (NodeAddr::V4(x, p), NodeAddr::V4(y, q)) => {
            let e = bytes_equal(x.as_slice(), y.as_slice());
            proof {
                if e {
                    assert(x@ =~= y@);
                    lemma_array_eq(*x, *y);
                }
            }
            e && *p == *q
        },
        (NodeAddr::V6(x, p), NodeAddr::V6(y, q)) => {
            let e = bytes_equal(x.as_slice(), y.as_slice());
            proof {
                if e {
                    assert(x@ =~= y@);
                    lemma_array_eq(*x, *y);
                }
            }
            e && *p == *q
        },
        _ => false,
    }
}

/// Arrays with equal views are equal.
pub proof fn lemma_array_eq<const N: usize>(x: [u8; N], y: [u8; N])
    requires
        x@ == y@,
    ensures
        x == y,
{
    assert forall|i: int| 0 <= i < N implies x[i] == y[i] by {
        assert(x@[i] == y@[i]);
    }
    assert(x =~= y);
}

/// Whether two node ids are the same.
pub fn same_id(a: &NodeId, b: &NodeId) -> (r: bool)
    ensures
        r == (a@ == b@),
{
    bytes_equal(a.as_slice(), b.as_slice())
}

/// The model of a node.
pub struct NodeView {
    /// The node's id.
    pub id: Seq<u8>,
    /// The node's address.
    pub addr: NodeAddr,
    /// When the node last sent us a request.
    pub last_request: Option<int>,
    /// When the node last answered us.
    pub last_response: Option<int>,
    /// Requests we sent since its last answer.
    pub refresh_requests: nat,
}

/// Status of a node at time `now`: good if it answered within the last fifteen minutes, or
/// answered at some time and asked us something within the last fifteen minutes; bad if it
/// never answered or left two requests unanswered since; questionable otherwise.
pub open spec fn node_status(n: NodeView, now: int) -> NodeStatus {
    match n.last_response {
        None => NodeStatus::Bad,
        Some(t) => if now - t < MAX_LAST_SEEN_MILLIS {
            NodeStatus::Good
        } else if n.last_request is Some && now - n.last_request->0 < MAX_LAST_SEEN_MILLIS {
            NodeStatus::Good
        } else if n.refresh_requests < MAX_REFRESH_REQUESTS {
            NodeStatus::Questionable
        } else {
            NodeStatus::Bad
        },
    }
}

/// A node after we sent it a request at time `now`: the request is counted unless the node
/// is good.
pub open spec fn requested(n: NodeView, now: int) -> NodeView {
    if node_status(n, now) != NodeStatus::Good {
        NodeView {
            refresh_requests: if n.refresh_requests < usize::MAX {
                n.refresh_requests + 1
            } else {
                n.refresh_requests
            },
            ..n
        }
    } else {
        n
    }
}

/// A node after it sent us a request at time `now`.
pub open spec fn remote_requested(n: NodeView, now: int) -> NodeView {
    NodeView { last_request: Some(now), ..n }
}

/// Two nodes are the same node when their ids and addresses are.
pub open spec fn same_node(a: NodeView, b: NodeView) -> bool {
    a.id == b.id && a.addr == b.addr
}

/// A node participating in the DHT, with what we know of its recent activity.
#[derive(Copy, Clone, Debug)]
pub struct Node {
    id: NodeId,
    addr: NodeAddr,
    last_request: Option<i64>,
    last_response: Option<i64>,
    refresh_requests: usize,
}

impl View for Node {
    type V = NodeView;

    closed spec fn view(&self) -> NodeView {
        NodeView {
            id: self.id@,
            addr: self.addr,
            last_request: match self.last_request {
                Some(t) => Some(t as int),
                None => None,
            },
            last_response: match self.last_response {
                Some(t) => Some(t as int),
                None => None,
            },
            refresh_requests: self.refresh_requests as nat,
        }
    }
}

/// A node's id has the length of a node id.
pub broadcast proof fn lemma_node_id_len(n: Node)
    ensures
        #[trigger] n@.id.len() == NODE_ID_LEN,
{
}

impl Node {
    /// A node that answered us at time `now` and never sent us a request.
    pub fn as_good_at(id: NodeId, addr: NodeAddr, now: i64) -> (n: Node)
        ensures
            n@ == (NodeView {
                id: id@,
                addr,
                last_request: None,
                last_response: Some(now as int),
                refresh_requests: 0,
            }),
    {
        Node { id, addr, last_response: Some(now), last_request: None, refresh_requests: 0 }
    }

    /// A node that answered us just now and never sent us a request.
    pub fn as_good(id: NodeId, addr: NodeAddr) -> (n: Node)
        ensures
            n@.id == id@,
            n@.addr == addr,
            n@.last_request is None,
            n@.last_response is Some,
            n@.refresh_requests == 0,
    {
        Node::as_good_at(id, addr, now_millis())
    }

    /// A node that answered us fifteen minutes before `now`, and never sent us a request.
    pub fn as_questionable_at(id: NodeId, addr: NodeAddr, now: i64) -> (n: Node)
        requires
            now >= i64::MIN + MAX_LAST_SEEN_MILLIS,
        ensures
            n@ == (NodeView {
                id: id@,
                addr,
                last_request: None,
                last_response: Some(now - MAX_LAST_SEEN_MILLIS),
                refresh_requests: 0,
            }),
    {
        Node {
            id,
            addr,
            last_response: Some(now - MAX_LAST_SEEN_MILLIS),
            last_request: None,
            refresh_requests: 0,
        }
    }

    /// A node that answered us fifteen minutes ago, and never sent us a request.
    pub fn as_questionable(id: NodeId, addr: NodeAddr) -> (n: Node)
        ensures
            n@.id == id@,
            n@.addr == addr,
            n@.last_request is None,
            n@.last_response is Some,
            n@.refresh_requests == 0,
    {
        let now = now_millis();
        let now = if now >= i64::MIN + MAX_LAST_SEEN_MILLIS {
            now
        } else {
            i64::MIN + MAX_LAST_SEEN_MILLIS
        };
        Node::as_questionable_at(id, addr, now)
    }

    /// A node that never answered us nor sent us a request.
    pub fn as_bad(id: NodeId, addr: NodeAddr) -> (n: Node)
        ensures
            n@ == (NodeView { id: id@, addr, last_request: None, last_response: None, refresh_requests: 0 }),
    {
        Node { id, addr, last_response: None, last_request: None, refresh_requests: 0 }
    }

    /// Records, at time `now`, that we sent the node a request: counted unless it is good.
    pub fn local_request_at(&mut self, now: i64)
        ensures
            final(self)@ == requested(old(self)@, now as int),
    {
        if self.status_at(now) != NodeStatus::Good {
            self.refresh_requests = self.refresh_requests.saturating_add(1);
        }
    }

    /// Records that we sent the node a request: counted unless it is good now.
    pub fn local_request(&mut self)
        ensures
            final(self)@.id == old(self)@.id,
            final(self)@.addr == old(self)@.addr,
            final(self)@.last_request == old(self)@.last_request,
            final(self)@.last_response == old(self)@.last_response,
            final(self)@.refresh_requests == old(self)@.refresh_requests
                || final(self)@.refresh_requests == old(self)@.refresh_requests + 1,
            exists|now: i64| final(self)@ == #[trigger] requested(old(self)@, now as int),
    {
        let now = now_millis();
        self.local_request_at(now);
        assert(self@ == requested(old(self)@, now as int));
    }

    /// Records that the node sent us a request at time `now`.
    pub fn remote_request_at(&mut self, now: i64)
        ensures
            final(self)@ == remote_requested(old(self)@, now as int),
    {
        self.last_request = Some(now);
    }

    /// Records that the node sent us a request just now.
    pub fn remote_request(&mut self)
        ensures
            final(self)@.last_request is Some,
            final(self)@.id == old(self)@.id,
            final(self)@.addr == old(self)@.addr,
            final(self)@.last_response == old(self)@.last_response,
            final(self)@.refresh_requests == old(self)@.refresh_requests,
    {
        self.remote_request_at(now_millis());
    }

    /// Records that the node answered us at time `now`.
    pub fn remote_response_at(&mut self, now: i64)
        ensures
            final(self)@ == (NodeView { last_response: Some(now as int), refresh_requests: 0, ..old(self)@ }),
    {
        self.last_response = Some(now);
        self.refresh_requests = 0;
    }

    /// Records that the node answered us just now.
    pub fn remote_response(&mut self)
        ensures
            final(self)@.last_response is Some,
            final(self)@.refresh_requests == 0,
            final(self)@.id == old(self)@.id,
            final(self)@.addr == old(self)@.addr,
            final(self)@.last_request == old(self)@.last_request,
    {
        self.remote_response_at(now_millis());
    }

    /// The node's id.
    pub fn id(&self) -> (r: NodeId)
        ensures
            r@ == self@.id,
    {
        self.id
    }

    /// The node's address.
    pub fn addr(&self) -> (r: NodeAddr)
        ensures
            r == self@.addr,
    {
        self.addr
    }

    /// Status of the node at time `now`.
    pub fn status_at(&self, now: i64) -> (s: NodeStatus)
        ensures
            s == node_status(self@, now as int),
    {
        match self.last_response {
            None => NodeStatus::Bad,
            Some(t) => {
                if (now as i128) - (t as i128) < MAX_LAST_SEEN_MILLIS as i128 {
                    NodeStatus::Good
                } else {
                    match self.last_request {
                        Some(r) => if (now as i128) - (r as i128) < MAX_LAST_SEEN_MILLIS as i128 {
                            return NodeStatus::Good;
                        },
                        None => {},
                    }
                    if self.refresh_requests < MAX_REFRESH_REQUESTS {
                        NodeStatus::Questionable
                    } else {
                        NodeStatus::Bad
                    }
                }
            },
        }
    }

    /// Status of the node now.
    pub fn status(&self) -> (s: NodeStatus)
        ensures
            exists|now: i64| s == node_status(self@, now as int),
    {
        let now = now_millis();
        self.status_at(now)
    }

    /// Whether this is the same node as `other`: same id and same address.
    pub fn same_as(&self, other: &Node) -> (r: bool)
        ensures
            r == same_node(self@, other@),
    {
        same_id(&self.id, &other.id) && same_addr(&self.addr, &other.addr)
    }
}

impl PartialEq for Node {
    fn eq(&self, other: &Node) -> (r: bool) {
        self.same_as(other)
    }
}

impl vstd::std_specs::cmp::PartialEqSpecImpl for Node {
    open spec fn obeys_eq_spec() -> bool {
        true
    }

    open spec fn eq_spec(&self, other: &Node) -> bool {
        same_node(self@, other@)
    }
}

impl Eq for Node {
}

/// A request we send to a node is counted against it only when the node is not good at that
/// time: sent to a good node it changes nothing of the node, and so the node's status at any
/// later time is what it would have been without the request; sent to a node that is not
/// good it adds one to its unanswered requests (saturating) and changes nothing else.
pub proof fn lemma_request_counting(n: NodeView, now: int)
    ensures
        node_status(n, now) == NodeStatus::Good ==> requested(n, now).refresh_requests == n.refresh_requests,
        node_status(n, now) == NodeStatus::Good ==> forall|later: int| #[trigger] node_status(requested(n, now), later) == node_status(n, later),
        node_status(n, now) != NodeStatus::Good && n.refresh_requests < usize::MAX ==> requested(n, now).refresh_requests
            == n.refresh_requests + 1,
        requested(n, now).id == n.id && requested(n, now).addr == n.addr,
        requested(n, now).last_request == n.last_request && requested(n, now).last_response == n.last_response,
{
}

} // verus!
