use vstd::prelude::*;

use crate::dht::routing::node::{
    node_status, now_millis, rank, remote_requested, requested, same_node, status_rank, Node, NodeAddr, NodeStatus, NodeView,
};

verus! {

broadcast use vstd::seq_lib::group_seq_properties, vstd::seq::group_seq_axioms;

/// Number of nodes in a bucket.
pub const MAX_BUCKET_SIZE: usize = 8;

/// Models of a sequence of nodes.
pub open spec fn nodes_view(s: Seq<Node>) -> Seq<NodeView> {
    s.map_values(|n: Node| n@)
}

/// Whether none of the nodes of `s` is good at time `now`.
pub open spec fn no_good_node(s: Seq<NodeView>, now: int) -> bool {
    forall|i: int| 0 <= i < s.len() ==> node_status(#[trigger] s[i], now) != NodeStatus::Good
}

/// Appending a node appends its model.
pub proof fn lemma_nodes_view_push(s: Seq<Node>, n: Node)
    ensures
        nodes_view(s.push(n)) == nodes_view(s).push(n@),
{
    assert(nodes_view(s.push(n)) =~= nodes_view(s).push(n@));
}

/// Whether a node of that status is worth pinging: good or questionable.
pub open spec fn is_pingable(s: NodeStatus) -> bool {
    s == NodeStatus::Good || s == NodeStatus::Questionable
}

/// Whether a node is good at time `now`.
pub open spec fn good_at(now: int) -> spec_fn(NodeView) -> bool {
    |n: NodeView| node_status(n, now) == NodeStatus::Good
}

/// Whether a node is good or questionable at time `now`.
pub open spec fn pingable_at(now: int) -> spec_fn(NodeView) -> bool {
    |n: NodeView| is_pingable(node_status(n, now))
}

/// The nodes of `s` that are good at time `now`, in order.
pub open spec fn good_in(s: Seq<NodeView>, now: int) -> Seq<NodeView> {
    s.filter(good_at(now))
}

/// The nodes of `s` that are good or questionable at time `now`, in order.
pub open spec fn pingable_in(s: Seq<NodeView>, now: int) -> Seq<NodeView> {
    s.filter(pingable_at(now))
}

/// The model of the node a new bucket is filled with: bad, so that any node that is not bad
/// takes its place.
pub open spec fn placeholder() -> NodeView {
    NodeView {
        id: Seq::new(20, |i: int| 0u8),
        addr: NodeAddr::V4([127u8, 0u8, 0u8, 1u8], 0u16),
        last_request: None,
        last_response: None,
        refresh_requests: 0,
    }
}

/// `i` is the first position of `s` that holds the same node as `n`.
pub open spec fn first_same(s: Seq<NodeView>, i: int, n: NodeView) -> bool {
    &&& 0 <= i < s.len()
    &&& same_node(s[i], n)
    &&& forall|j: int| 0 <= j < i ==> !same_node(#[trigger] s[j], n)
}

/// Whether `m` has a worse status than `n` at time `now`.
pub open spec fn worse_than(m: NodeView, n: NodeView, now: int) -> bool {
    status_rank(node_status(m, now)) < status_rank(node_status(n, now))
}

/// `i` is the first position of `s` that holds a node worse than `n` at time `now`.
pub open spec fn first_worse(s: Seq<NodeView>, i: int, n: NodeView, now: int) -> bool {
    &&& 0 <= i < s.len()
    &&& worse_than(s[i], n, now)
    &&& forall|j: int| 0 <= j < i ==> !worse_than(#[trigger] s[j], n, now)
}

/// What adding `n` at time `now` does to the nodes `s` of a bucket, and whether it found room.
///
/// A bad node is not added (and that counts as success). A node already present replaces
/// its first copy if its status is at least as good. Otherwise it replaces the first node
/// whose status is worse than its own, if there is one; if not, the bucket is full.
pub open spec fn bucket_add(s: Seq<NodeView>, n: NodeView, now: int, r: bool, t: Seq<NodeView>) -> bool {
    let st = node_status(n, now);
    if st == NodeStatus::Bad {
        r && t == s
    } else if exists|i: int| first_same(s, i, n) {
        r && exists|i: int|
            first_same(s, i, n) && t == (if status_rank(st) >= status_rank(node_status(s[i], now)) {
                s.update(i, n)
            } else {
                s
            })
    } else if exists|i: int| first_worse(s, i, n, now) {
        r && exists|i: int| first_worse(s, i, n, now) && t == s.update(i, n)
    } else {
        !r && t == s
    }
}

/// What adding `n` at time `now` to the nodes `s` of a bucket gives (see `bucket_add`):
/// whether there was room, and the nodes after.
pub open spec fn bucket_add_result(s: Seq<NodeView>, n: NodeView, now: int) -> (bool, Seq<NodeView>) {
    let st = node_status(n, now);
    if st == NodeStatus::Bad {
        (true, s)
    } else if exists|i: int| first_same(s, i, n) {
        let i = choose|i: int| first_same(s, i, n);
        (
            true,
            if status_rank(st) >= status_rank(node_status(s[i], now)) {
                s.update(i, n)
            } else {
                s
            },
        )
    } else if exists|i: int| first_worse(s, i, n, now) {
        let i = choose|i: int| first_worse(s, i, n, now);
        (true, s.update(i, n))
    } else {
        (false, s)
    }
}

/// `bucket_add` has one outcome: `bucket_add_result`.
pub proof fn lemma_bucket_add_result(s: Seq<NodeView>, n: NodeView, now: int, r: bool, t: Seq<NodeView>)
    requires
        bucket_add(s, n, now, r, t),
    ensures
        (r, t) == bucket_add_result(s, n, now),
{
    if node_status(n, now) != NodeStatus::Bad {
        if exists|i: int| first_same(s, i, n) {
            let i = choose|i: int| first_same(s, i, n);
            let j = choose|j: int|
                first_same(s, j, n) && t == (if status_rank(node_status(n, now)) >= status_rank(node_status(s[j], now)) {
                    s.update(j, n)
                } else {
                    s
                });
            if i < j {
                assert(!same_node(s[i], n));
            } else if j < i {
                assert(!same_node(s[j], n));
            }
        } else if exists|i: int| first_worse(s, i, n, now) {
            let i = choose|i: int| first_worse(s, i, n, now);
            let j = choose|j: int| first_worse(s, j, n, now) && t == s.update(j, n);
            if i < j {
                assert(!worse_than(s[i], n, now));
            } else if j < i {
                assert(!worse_than(s[j], n, now));
            }
        }
    }
}

/// Adding a node to a bucket keeps its size, and every position holds what it held or the
/// added node.
pub proof fn lemma_bucket_add_shape(s: Seq<NodeView>, n: NodeView, now: int, r: bool, t: Seq<NodeView>)
    requires
        bucket_add(s, n, now, r, t),
    ensures
        t.len() == s.len(),
        forall|j: int| 0 <= j < t.len() ==> #[trigger] t[j] == s[j] || t[j] == n,
        !r ==> t == s,
{
}

/// A bucket of nodes whose ids share the same prefix with ours.
pub struct Bucket {
    nodes: Vec<Node>,
}

impl View for Bucket {
    type V = Seq<NodeView>;

    closed spec fn view(&self) -> Seq<NodeView> {
        nodes_view(self.nodes@)
    }
}

impl Bucket {
    /// A bucket filled with bad placeholder nodes.
    pub fn new() -> (b: Bucket)
        ensures
            b@ == Seq::new(MAX_BUCKET_SIZE as nat, |i: int| placeholder()),
    {
        let id = [0u8; 20];
        let addr = NodeAddr::V4([127u8, 0u8, 0u8, 1u8], 0);
        let mut nodes: Vec<Node> = Vec::new();
        let mut k: usize = 0;
        assert(id@ =~= Seq::new(20, |i: int| 0u8));
        assert(nodes_view(nodes@) =~= Seq::new(0, |i: int| placeholder()));
        while k < MAX_BUCKET_SIZE
            invariant
                k <= MAX_BUCKET_SIZE,
                id@ == Seq::new(20, |i: int| 0u8),
                addr == NodeAddr::V4([127u8, 0u8, 0u8, 1u8], 0u16),
                nodes_view(nodes@) == Seq::new(k as nat, |i: int| placeholder()),
            decreases MAX_BUCKET_SIZE - k,
        {
            let n = Node::as_bad(id, addr);
            let ghost before = nodes_view(nodes@);
            nodes.push(n);
            assert(nodes_view(nodes@) =~= before.push(n@));
            assert(n@ == placeholder());
            k = k + 1;
            assert(nodes_view(nodes@) =~= Seq::new(k as nat, |i: int| placeholder()));
        }
        Bucket { nodes }
    }

    /// The nodes of the bucket, placeholders included.
    pub fn iter(&self) -> (r: &[Node])
        ensures
            nodes_view(r@) == self@,
    {
        self.nodes.as_slice()
    }

    /// Records, at time `now`, that we sent a request to the node at position `i`.
    pub(crate) fn local_request_at_index(&mut self, i: usize, now: i64)
        requires
            i < old(self)@.len(),
        ensures
            final(self)@ == old(self)@.update(i as int, requested(old(self)@[i as int], now as int)),
    {
        let mut n = self.nodes[i];
        n.local_request_at(now);
        self.nodes.set(i, n);
        assert(self@ =~= old(self)@.update(i as int, requested(old(self)@[i as int], now as int)));
    }

    /// Records that the node at position `i` sent us a request at time `now`.
    pub(crate) fn remote_request_at_index(&mut self, i: usize, now: i64)
        requires
            i < old(self)@.len(),
        ensures
            final(self)@ == old(self)@.update(i as int, remote_requested(old(self)@[i as int], now as int)),
    {
        let mut n = self.nodes[i];
        n.remote_request_at(now);
        self.nodes.set(i, n);
        assert(self@ =~= old(self)@.update(i as int, remote_requested(old(self)@[i as int], now as int)));
    }

    /// The nodes of the bucket that are good at time `now`.
    pub fn good_nodes_at(&self, now: i64) -> (r: Vec<Node>)
        ensures
            nodes_view(r@) == good_in(self@, now as int),
    {
        let mut out: Vec<Node> = Vec::new();
        let mut i: usize = 0;
        let ghost pred = good_at(now as int);
        while i < self.nodes.len()
            invariant
                i <= self.nodes@.len(),
                pred == good_at(now as int),
                nodes_view(out@) == self@.subrange(0, i as int).filter(pred),
            decreases self.nodes@.len() - i,
        {
            let ghost before = self@.subrange(0, i as int);
            assert(self@.subrange(0, i + 1) =~= before.push(self.nodes@[i as int]@));
            proof {
                before.lemma_filter_push(self.nodes@[i as int]@, pred);
            }
            if self.nodes[i].status_at(now) == NodeStatus::Good {
                out.push(self.nodes[i]);
            }
            i = i + 1;
            assert(nodes_view(out@) =~= self@.subrange(0, i as int).filter(pred));
        }
        assert(self@.subrange(0, i as int) =~= self@);
        out
    }

    /// The nodes of the bucket that are good or questionable at time `now`.
    pub fn pingable_nodes_at(&self, now: i64) -> (r: Vec<Node>)
        ensures
            nodes_view(r@) == pingable_in(self@, now as int),
    {
        let mut out: Vec<Node> = Vec::new();
        let mut i: usize = 0;
        let ghost pred = pingable_at(now as int);
        while i < self.nodes.len()
            invariant
                i <= self.nodes@.len(),
                pred == pingable_at(now as int),
                nodes_view(out@) == self@.subrange(0, i as int).filter(pred),
            decreases self.nodes@.len() - i,
        {
            let ghost before = self@.subrange(0, i as int);
            assert(self@.subrange(0, i + 1) =~= before.push(self.nodes@[i as int]@));
            proof {
                before.lemma_filter_push(self.nodes@[i as int]@, pred);
            }
            let st = self.nodes[i].status_at(now);
            if st == NodeStatus::Good || st == NodeStatus::Questionable {
                out.push(self.nodes[i]);
            }
            i = i + 1;
            assert(nodes_view(out@) =~= self@.subrange(0, i as int).filter(pred));
        }
        assert(self@.subrange(0, i as int) =~= self@);
        out
    }

    /// Whether the bucket needs a refresh at time `now`: none of its nodes is good.
    pub fn needs_refresh_at(&self, now: i64) -> (r: bool)
        ensures
            r == no_good_node(self@, now as int),
    {
        let mut i: usize = 0;
        while i < self.nodes.len()
            invariant
                i <= self.nodes@.len(),
                forall|j: int| 0 <= j < i ==> node_status(#[trigger] self@[j], now as int) != NodeStatus::Good,
            decreases self.nodes@.len() - i,
        {
            if self.nodes[i].status_at(now) == NodeStatus::Good {
                assert(node_status(self@[i as int], now as int) == NodeStatus::Good);
                return false;
            }
            i = i + 1;
        }
        true
    }

    /// Adds `new_node` at time `now` if there is room for it (see `bucket_add`); returns
    /// whether the bucket had room.
    pub fn add_node_at(&mut self, new_node: Node, now: i64) -> (r: bool)
        ensures
            bucket_add(old(self)@, new_node@, now as int, r, final(self)@),
            (r, final(self)@) == bucket_add_result(old(self)@, new_node@, now as int),
    {
        let ghost s = self@;
        let ghost n = new_node@;
        let new_status = new_node.status_at(now);
        if new_status == NodeStatus::Bad {
            proof {
                lemma_bucket_add_result(s, n, now as int, true, self@);
            }
            return true;
        }
        let len = self.nodes.len();
        let mut i: usize = 0;
        while i < len
            invariant
                len == self.nodes@.len(),
                self@ == s,
                old(self)@ == s,
                n == new_node@,
                i <= len,
                new_status == node_status(n, now as int),
                new_status != NodeStatus::Bad,
                forall|j: int| 0 <= j < i ==> !same_node(#[trigger] s[j], n),
            decreases len - i,
        {
            if self.nodes[i].same_as(&new_node) {
                assert(first_same(s, i as int, n));
                let other_status = self.nodes[i].status_at(now);
                if rank(new_status) >= rank(other_status) {
                    self.nodes.set(i, new_node);
                    assert(self@ =~= s.update(i as int, n));
                }
                assert(self@ == (if status_rank(new_status) >= status_rank(node_status(s[i as int], now as int)) {
                    s.update(i as int, n)
                } else {
                    s
                }));
                assert(bucket_add(s, n, now as int, true, self@));
                proof {
                    lemma_bucket_add_result(s, n, now as int, true, self@);
                }
                return true;
            }
            i = i + 1;
        }
        assert forall|k: int| !first_same(s, k, n) by {}
        let mut i: usize = 0;
        while i < len
            invariant
                len == self.nodes@.len(),
                self@ == s,
                old(self)@ == s,
                n == new_node@,
                i <= len,
                new_status == node_status(n, now as int),
                new_status != NodeStatus::Bad,
                forall|k: int| !first_same(s, k, n),
                forall|j: int| 0 <= j < i ==> !worse_than(#[trigger] s[j], n, now as int),
            decreases len - i,
        {
            let st = self.nodes[i].status_at(now);
            if rank(st) < rank(new_status) {
                assert(first_worse(s, i as int, n, now as int));
                self.nodes.set(i, new_node);
                assert(self@ =~= s.update(i as int, n));
                assert(bucket_add(s, n, now as int, true, self@));
                proof {
                    lemma_bucket_add_result(s, n, now as int, true, self@);
                }
                return true;
            }
            i = i + 1;
        }
        assert forall|k: int| !first_worse(s, k, n, now as int) by {}
        proof {
            lemma_bucket_add_result(s, n, now as int, false, self@);
        }
        false
    }

    /// The nodes of the bucket that are good now.
    pub fn good_nodes(&self) -> (r: Vec<Node>)
        ensures
            exists|now: i64| nodes_view(r@) == #[trigger] good_in(self@, now as int),
    {
        self.good_nodes_at(now_millis())
    }

    /// The nodes of the bucket that are good or questionable now.
    pub fn pingable_nodes(&self) -> (r: Vec<Node>)
        ensures
            exists|now: i64| nodes_view(r@) == #[trigger] pingable_in(self@, now as int),
    {
        self.pingable_nodes_at(now_millis())
    }

    /// Whether the bucket needs a refresh now: none of its nodes is good.
    pub fn needs_refresh(&self) -> (r: bool)
        ensures
            exists|now: i64| r == #[trigger] no_good_node(self@, now as int),
    {
        self.needs_refresh_at(now_millis())
    }

    /// Adds `new_node` now if there is room for it (see `bucket_add`); returns whether the
    /// bucket had room.
    pub fn add_node(&mut self, new_node: Node) -> (r: bool)
        ensures
            exists|now: i64| #[trigger] bucket_add(old(self)@, new_node@, now as int, r, final(self)@),
    {
        self.add_node_at(new_node, now_millis())
    }
}

} // verus!
