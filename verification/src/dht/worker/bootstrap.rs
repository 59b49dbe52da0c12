use vstd::prelude::*;

use crate::bencode::spec::encode_value;
use crate::dht::message::find_node::{find_node_request_value, FindNodeRequest};
use crate::dht::routing::bucket::nodes_view;
use crate::dht::routing::node::{node_status, now_millis, same_addr, Node, NodeAddr, NodeId, NodeStatus, NodeView};
use crate::dht::routing::table::{
    bucket_listing, closest_from, flip_bit, flip_id_bit_at_index, listing_len, record_requests, shared_bits,
    BucketContents, RoutingTable, TableView, MAX_BUCKETS,
};
use crate::dht::transaction::{MIDGenerator, TransactionID};

verus! {

/// Milliseconds to wait for the first answers before bootstrapping the buckets.
pub const BOOTSTRAP_INITIAL_TIMEOUT: u64 = 2500;
/// Milliseconds to wait for a node to answer a bootstrap request.
pub const BOOTSTRAP_NODE_TIMEOUT: u64 = 500;
/// Most nodes asked per bucket.
pub const BOOTSTRAP_PINGS_PER_BUCKET: usize = 8;

/// How a table bootstrap goes on.
#[derive(Copy, Clone, PartialEq, Eq, Structural, Debug)]
pub enum BootstrapStatus {
    /// The bootstrap has finished.
    Idle,
    /// The bootstrap is in progress.
    Bootstrapping,
    /// The bootstrap has just finished.
    Completed,
    /// The bootstrap failed in a fatal way.
    Failed,
}

/// `s` without its repeated addresses, each kept where it first occurs.
pub open spec fn distinct_addrs(s: Seq<NodeAddr>) -> Seq<NodeAddr>
    decreases s.len(),
{
    if s.len() == 0 {
        s
    } else {
        let d = distinct_addrs(s.drop_last());
        if d.contains(s.last()) {
            d
        } else {
            d.push(s.last())
        }
    }
}

/// Index of the entry for `id` among the outstanding requests `s`, if any.
pub open spec fn find_active<T>(s: Seq<(TransactionID, T)>, id: TransactionID) -> Option<int>
    decreases s.len(),
{
    if s.len() == 0 {
        None
    } else if s.last().0 == id {
        Some(s.len() - 1)
    } else {
        find_active(s.drop_last(), id)
    }
}

/// The index found holds the id, and an id that is held is found.
pub proof fn lemma_find_active<T>(s: Seq<(TransactionID, T)>, id: TransactionID)
    ensures
        find_active(s, id) matches Some(i) ==> 0 <= i < s.len() && s[i].0 == id,
        find_active(s, id) is None <==> forall|i: int| 0 <= i < s.len() ==> (#[trigger] s[i]).0 != id,
    decreases s.len(),
{
    if s.len() > 0 {
        lemma_find_active(s.drop_last(), id);
        assert forall|i: int| 0 <= i < s.len() - 1 implies (#[trigger] s[i]).0 == s.drop_last()[i].0 by {}
    }
}

/// Outstanding requests `s` with the timeout of `id` set to `timeout`.
pub open spec fn insert_active<T>(s: Seq<(TransactionID, T)>, id: TransactionID, timeout: T) -> Seq<(TransactionID, T)> {
    match find_active(s, id) {
        Some(i) => s.update(i, (id, timeout)),
        None => s.push((id, timeout)),
    }
}

/// Status of a bootstrap that has done `bucket` buckets and waits on `active` requests: idle
/// once every bucket is done or nothing is awaited.
pub open spec fn status_of(bucket: int, active: int) -> BootstrapStatus {
    if bucket == MAX_BUCKETS || active == 0 {
        BootstrapStatus::Idle
    } else {
        BootstrapStatus::Bootstrapping
    }
}

/// What the bootstrap asks to be done after a response or a timeout: cancel the timeout
/// `cleared`, if any; send each request of `requests` after scheduling its timeout, keeping
/// the handle with `record_timeout`; and report `status`.
pub struct BootstrapStep<T> {
    pub cleared: Option<T>,
    pub requests: Vec<BootstrapRequest>,
    pub status: BootstrapStatus,
}

/// A response to the request `id` makes the bootstrap go on with the next bucket: the request
/// is outstanding, is not the first one (which waits for its timeout), and is the last one.
pub open spec fn response_goes_on<T>(active: Seq<(TransactionID, T)>, bucket: int, id: TransactionID) -> bool {
    find_active(active, id) is Some && bucket != 0 && active.len() == 1
}

/// The timeout of the request `id` makes the bootstrap go on with the next bucket: the
/// request is outstanding and is the last one.
pub open spec fn timeout_goes_on<T>(active: Seq<(TransactionID, T)>, id: TransactionID) -> bool {
    find_active(active, id) is Some && active.len() == 1
}

/// Handling at time `now` the response to the request `id` (see
/// `TableBootstrap::recv_response_at`): from bootstrap `before` and table `t` to bootstrap
/// `after` and table `t2`, handing out `step`.
pub open spec fn response_step_spec<T>(
    before: TableBootstrap<T>,
    after: TableBootstrap<T>,
    t: TableView,
    t2: TableView,
    id: TransactionID,
    now: int,
    step: BootstrapStep<T>,
) -> bool {
    &&& after.table_id() == before.table_id()
    &&& after.nodes() == before.nodes()
    &&& after.routers() == before.routers()
    &&& after.generator().action_value() == before.generator().action_value()
    &&& crate::dht::transaction::issued(before.generator().pending(), request_message_ids(step.requests@)) == Some(
        after.generator().pending(),
    )
    &&& match find_active(before.active(), id) {
        None => step.cleared is None && step.requests@.len() == 0 && step.status == status_of(
            before.bucket(),
            before.active().len() as int,
        ) && after.active() == before.active() && after.bucket() == before.bucket()
            && t2 == t,
        Some(i) => {
            let active = if before.bucket() != 0 {
                before.active().remove(i)
            } else {
                before.active()
            };
            &&& after.active() == active
            &&& step.cleared == (if before.bucket() != 0 {
                Some(before.active()[i].1)
            } else {
                None
            })
            &&& if active.len() == 0 {
                bootstrap_planned(
                    before.table_id(),
                    before.generator().action_value(),
                    before.bucket(),
                    t,
                    now,
                    step.requests@,
                    step.status,
                    after.bucket(),
                    t2,
                )
            } else {
                step.requests@.len() == 0 && step.status == status_of(before.bucket(), active.len() as int)
                    && after.bucket() == before.bucket() && t2 == t
            }
        },
    }
}

/// Handling at time `now` the timeout of the request `id` (see
/// `TableBootstrap::recv_timeout_at`): from bootstrap `before` and table `t` to bootstrap
/// `after` and table `t2`, handing out `step`.
pub open spec fn timeout_step_spec<T>(
    before: TableBootstrap<T>,
    after: TableBootstrap<T>,
    t: TableView,
    t2: TableView,
    id: TransactionID,
    now: int,
    step: BootstrapStep<T>,
) -> bool {
    &&& after.table_id() == before.table_id()
    &&& after.nodes() == before.nodes()
    &&& after.routers() == before.routers()
    &&& after.generator().action_value() == before.generator().action_value()
    &&& crate::dht::transaction::issued(before.generator().pending(), request_message_ids(step.requests@)) == Some(
        after.generator().pending(),
    )
    &&& step.cleared is None
    &&& match find_active(before.active(), id) {
        None => step.requests@.len() == 0 && step.status == status_of(
            before.bucket(),
            before.active().len() as int,
        ) && after.active() == before.active() && after.bucket() == before.bucket()
            && t2 == t,
        Some(i) => {
            let active = before.active().remove(i);
            &&& after.active() == active
            &&& if active.len() == 0 {
                bootstrap_planned(
                    before.table_id(),
                    before.generator().action_value(),
                    before.bucket(),
                    t,
                    now,
                    step.requests@,
                    step.status,
                    after.bucket(),
                    t2,
                )
            } else {
                step.requests@.len() == 0 && step.status == status_of(before.bucket(), active.len() as int)
                    && after.bucket() == before.bucket() && t2 == t
            }
        },
    }
}

/// The nodes of entry `k` of the listing of the buckets of `t` (see `bucket_listing`); an
/// empty entry, or one past the end of the listing, has none.
pub open spec fn listed_nodes(t: TableView, k: int) -> Seq<NodeView> {
    if 0 <= k < listing_len(t.buckets.len() as int) {
        match bucket_listing(t.buckets, k) {
            Some((s, _)) => s,
            None => Seq::empty(),
        }
    } else {
        Seq::empty()
    }
}

/// The first `limit` nodes of `s` that are questionable at time `now`, in order.
pub open spec fn take_questionable(s: Seq<NodeView>, now: int, limit: nat) -> Seq<NodeView>
    decreases s.len(),
{
    if s.len() == 0 || limit == 0 {
        Seq::empty()
    } else if node_status(s[0], now) == NodeStatus::Questionable {
        seq![s[0]] + take_questionable(s.drop_first(), now, (limit - 1) as nat)
    } else {
        take_questionable(s.drop_first(), now, limit)
    }
}

/// The nodes asked at time `now` while bootstrapping bucket `c` of table `t` for our id
/// `table_id`: up to eight questionable nodes, taken from the nodes closest to the id that
/// differs from ours in bit `c` for the first two buckets, and from the entries `c - 2` to `c`
/// of the listing of the buckets for the others.
pub open spec fn bootstrap_candidates(t: TableView, table_id: Seq<u8>, c: int, now: int) -> Seq<NodeView> {
    let pool = if c < 2 {
        let start = shared_bits(t.node_id, flip_bit(table_id, c));
        closest_from(t, start, start, now)
    } else {
        listed_nodes(t, c - 2) + listed_nodes(t, c - 1) + listed_nodes(t, c)
    };
    take_questionable(pool, now, BOOTSTRAP_PINGS_PER_BUCKET as nat)
}

/// The bucket the bootstrap works on when it goes on from bucket `c`: the first from `c` on
/// with a node to ask, or else the last bucket.
pub open spec fn next_bootstrap_bucket(t: TableView, table_id: Seq<u8>, c: int, now: int) -> int
    decreases MAX_BUCKETS - c,
{
    if c >= MAX_BUCKETS - 1 || bootstrap_candidates(t, table_id, c, now).len() > 0 {
        c
    } else {
        next_bootstrap_bucket(t, table_id, c + 1, now)
    }
}

/// A find-node request to send while bootstrapping: its transaction id, its bencode, and the
/// node to send it to.
pub struct BootstrapRequest {
    pub trans_id: TransactionID,
    pub message: Vec<u8>,
    pub addr: NodeAddr,
}

/// The message parts of the transaction ids of `reqs`, in order.
pub open spec fn request_message_ids(reqs: Seq<BootstrapRequest>) -> Seq<u64> {
    reqs.map_values(|r: BootstrapRequest| crate::dht::transaction::message_part(r.trans_id))
}

/// `reqs` are, in order, find-node requests for `target` from `table_id` to each of `nodes`,
/// under transaction ids of the action `action`.
pub open spec fn requests_for(
    reqs: Seq<BootstrapRequest>,
    nodes: Seq<NodeView>,
    table_id: Seq<u8>,
    target: Seq<u8>,
    action: u64,
) -> bool {
    &&& reqs.len() == nodes.len()
    &&& forall|k: int|
        0 <= k < reqs.len() ==> (#[trigger] reqs[k]).addr == nodes[k].addr && reqs[k].message@ == encode_value(
            find_node_request_value(reqs[k].trans_id.bytes(), table_id, target),
        ) && reqs[k].trans_id.value() / 0x100_0000 == action
}

/// Going on at time `now` from bucket `c` of table `t`: the bootstrap works on bucket
/// `next_bootstrap_bucket`, hands out `reqs` for its candidates and records them in the
/// table, giving table `t2`; it has then done that bucket (`c2`), and is complete after the
/// last one.
pub open spec fn bootstrap_planned(
    table_id: Seq<u8>,
    action: u64,
    c: int,
    t: TableView,
    now: int,
    reqs: Seq<BootstrapRequest>,
    status: BootstrapStatus,
    c2: int,
    t2: TableView,
) -> bool {
    let b = next_bootstrap_bucket(t, table_id, c, now);
    let cands = bootstrap_candidates(t, table_id, b, now);
    &&& c2 == b + 1
    &&& status == (if b + 1 == MAX_BUCKETS {
        BootstrapStatus::Completed
    } else {
        BootstrapStatus::Bootstrapping
    })
    &&& requests_for(reqs, cands, table_id, flip_bit(table_id, b), action)
    &&& t2 == record_requests(t, cands, now)
}

/// The first `limit` nodes of `nodes` that are questionable at time `now`.
fn take_questionable_nodes(nodes: &Vec<Node>, now: i64, limit: usize) -> (r: Vec<Node>)
    ensures
        nodes_view(r@) == take_questionable(nodes_view(nodes@), now as int, limit as nat),
{
    let ghost v = nodes_view(nodes@);
    let ghost whole = take_questionable(v, now as int, limit as nat);
    let mut out: Vec<Node> = Vec::new();
    let mut i: usize = 0;
    assert(v.subrange(0, v.len() as int) =~= v);
    while i < nodes.len() && out.len() < limit
        invariant
            v == nodes_view(nodes@),
            i <= nodes@.len(),
            out@.len() <= limit,
            nodes_view(out@) + take_questionable(v.subrange(i as int, v.len() as int), now as int, (limit - out@.len()) as nat)
                == whole,
        decreases nodes@.len() - i,
    {
        let ghost rest = v.subrange(i as int, v.len() as int);
        let ghost lim = (limit - out@.len()) as nat;
        assert(rest.drop_first() =~= v.subrange(i + 1, v.len() as int));
        assert(rest[0] == nodes@[i as int]@);
        let ghost before = nodes_view(out@);
        if nodes[i].status_at(now) == NodeStatus::Questionable {
            out.push(nodes[i]);
            assert(nodes_view(out@) =~= before.push(nodes@[i as int]@));
            assert(take_questionable(rest, now as int, lim) == seq![rest[0]] + take_questionable(
                rest.drop_first(),
                now as int,
                (lim - 1) as nat,
            ));
            assert(before + (seq![rest[0]] + take_questionable(rest.drop_first(), now as int, (lim - 1) as nat))
                =~= before.push(rest[0]) + take_questionable(rest.drop_first(), now as int, (lim - 1) as nat));
        }
        i = i + 1;
    }
    let ghost rest = v.subrange(i as int, v.len() as int);
    assert(take_questionable(rest, now as int, (limit - out@.len()) as nat) == Seq::<NodeView>::empty());
    assert(nodes_view(out@) + Seq::<NodeView>::empty() =~= nodes_view(out@));
    out
}

/// Appends the nodes of entry `k` of `listing`, if it lists a bucket.
fn push_listed(listing: &Vec<BucketContents>, k: usize, out: &mut Vec<Node>)
    ensures
        nodes_view(final(out)@) == nodes_view(old(out)@) + (if k < listing@.len() {
            match crate::dht::routing::table::contents_view(listing@[k as int]) {
                Some((s, _)) => s,
                None => Seq::empty(),
            }
        } else {
            Seq::empty()
        }),
{
    let ghost start = nodes_view(out@);
    if k >= listing.len() {
        assert(start + Seq::<NodeView>::empty() =~= start);
        return;
    }
    let nodes: &[Node] = match &listing[k] {
        BucketContents::Empty => {
            assert(start + Seq::<NodeView>::empty() =~= start);
            return;
        },
        BucketContents::Sorted(b) => b.iter(),
        BucketContents::Assorted(b) => b.iter(),
    };
    let ghost s = nodes_view(nodes@);
    let mut i: usize = 0;
    while i < nodes.len()
        invariant
            i <= nodes@.len(),
            s == nodes_view(nodes@),
            nodes_view(out@) == start + s.subrange(0, i as int),
        decreases nodes@.len() - i,
    {
        let ghost before = nodes_view(out@);
        out.push(nodes[i]);
        assert(nodes_view(out@) =~= before.push(nodes@[i as int]@));
        i = i + 1;
        assert(start + s.subrange(0, i as int) =~= (start + s.subrange(0, i - 1)).push(s[i - 1]));
    }
    assert(s.subrange(0, i as int) =~= s);
}

/// The first step of a bootstrap: schedule its timeout under `trans_id`, then send `message`,
/// a find-node request for our own id, to each of `addrs`.
pub struct BootstrapStart {
    pub trans_id: TransactionID,
    pub message: Vec<u8>,
    pub addrs: Vec<NodeAddr>,
}

/// Fills the routing table: first asks the routers and known nodes for nodes close to our
/// id, then asks the questionable nodes it knows for nodes in each bucket in turn. `T` is the
/// handle of a scheduled timeout, kept for each outstanding request.
pub struct TableBootstrap<T> {
    table_id: NodeId,
    id_generator: MIDGenerator,
    starting_nodes: Vec<NodeAddr>,
    starting_routers: Vec<NodeAddr>,
    active_messages: Vec<(TransactionID, T)>,
    curr_bootstrap_bucket: usize,
}

/// Whether `addr` is one of `addrs`.
fn contains_addr(addrs: &Vec<NodeAddr>, addr: &NodeAddr) -> (r: bool)
    ensures
        r == addrs@.contains(*addr),
{
    let mut i: usize = 0;
    while i < addrs.len()
        invariant
            i <= addrs@.len(),
            forall|j: int| 0 <= j < i ==> addrs@[j] != *addr,
        decreases addrs@.len() - i,
    {
        if same_addr(&addrs[i], addr) {
            assert(addrs@[i as int] == *addr);
            return true;
        }
        i = i + 1;
    }
    false
}

impl<T> TableBootstrap<T> {
    /// The id generator is consistent and the bucket count is in range.
    pub closed spec fn wf(self) -> bool {
        &&& self.id_generator.wf()
        &&& self.curr_bootstrap_bucket <= MAX_BUCKETS
    }

    /// Our node id.
    pub closed spec fn table_id(self) -> Seq<u8> {
        self.table_id@
    }

    /// The generator of the transaction ids of the bootstrap.
    pub closed spec fn generator(self) -> MIDGenerator {
        self.id_generator
    }

    /// The nodes asked first, besides the routers.
    pub closed spec fn nodes(self) -> Seq<NodeAddr> {
        self.starting_nodes@
    }

    /// The routers asked first, each once.
    pub closed spec fn routers(self) -> Seq<NodeAddr> {
        self.starting_routers@
    }

    /// The outstanding requests, with the handles of their timeouts.
    pub closed spec fn active(self) -> Seq<(TransactionID, T)> {
        self.active_messages@
    }

    /// The number of buckets bootstrapped so far.
    pub closed spec fn bucket(self) -> int {
        self.curr_bootstrap_bucket as int
    }

    /// A bootstrap for our id `table_id` that will first ask `routers` and `nodes`.
    pub fn new(table_id: NodeId, id_generator: MIDGenerator, nodes: Vec<NodeAddr>, routers: Vec<NodeAddr>) -> (r:
        TableBootstrap<T>)
        requires
            id_generator.wf(),
        ensures
            r.wf(),
            r.table_id() == table_id@,
            r.generator() == id_generator,
            r.nodes() == nodes@,
            r.routers() == distinct_addrs(routers@),
            r.active().len() == 0,
            r.bucket() == 0,
    {
        let mut starting_routers: Vec<NodeAddr> = Vec::new();
        let mut i: usize = 0;
        while i < routers.len()
            invariant
                i <= routers@.len(),
                starting_routers@ == distinct_addrs(routers@.subrange(0, i as int)),
            decreases routers@.len() - i,
        {
            let ghost prefix = routers@.subrange(0, i + 1);
            assert(prefix.drop_last() =~= routers@.subrange(0, i as int));
            if !contains_addr(&starting_routers, &routers[i]) {
                starting_routers.push(routers[i]);
            }
            i = i + 1;
        }
        assert(routers@.subrange(0, routers@.len() as int) =~= routers@);
        TableBootstrap {
            table_id,
            id_generator,
            starting_nodes: nodes,
            starting_routers,
            active_messages: Vec::new(),
            curr_bootstrap_bucket: 0,
        }
    }

    /// Whether `addr` is one of the routers.
    pub fn is_router(&self, addr: &NodeAddr) -> (r: bool)
        ensures
            r == self.routers().contains(*addr),
    {
        contains_addr(&self.starting_routers, addr)
    }

    /// The number of buckets bootstrapped so far.
    pub fn buckets_bootstrapped(&self) -> (r: usize)
        ensures
            r == self.bucket(),
    {
        self.curr_bootstrap_bucket
    }

    /// The number of outstanding requests.
    pub fn outstanding_requests(&self) -> (r: usize)
        ensures
            r == self.active().len(),
    {
        self.active_messages.len()
    }

    /// Whether the request `trans_id` is outstanding.
    pub fn is_outstanding(&self, trans_id: &TransactionID) -> (r: bool)
        ensures
            r == find_active(self.active(), *trans_id) is Some,
    {
        self.find_message(trans_id).is_some()
    }

    /// Idle once every bucket is done or no request is outstanding, else bootstrapping.
    pub fn current_bootstrap_status(&self) -> (s: BootstrapStatus)
        ensures
            s == status_of(self.bucket(), self.active().len() as int),
    {
        if self.curr_bootstrap_bucket == MAX_BUCKETS || self.active_messages.len() == 0 {
            BootstrapStatus::Idle
        } else {
            BootstrapStatus::Bootstrapping
        }
    }

    /// Starts over: forgets the outstanding requests and the buckets done, and hands out the
    /// first request, a find-node request for our own id to every router and known node.
    pub fn start_bootstrap(&mut self) -> (r: BootstrapStart)
        requires
            old(self).wf(),
        ensures
            final(self).wf(),
            final(self).table_id() == old(self).table_id(),
            final(self).nodes() == old(self).nodes(),
            final(self).routers() == old(self).routers(),
            final(self).generator().action_value() == old(self).generator().action_value(),
            final(self).active().len() == 0,
            final(self).bucket() == 0,
            r.trans_id.value() / 0x100_0000 == old(self).generator().action_value(),
            r.message@ == encode_value(
                find_node_request_value(r.trans_id.bytes(), old(self).table_id(), old(self).table_id()),
            ),
            r.addrs@ == old(self).routers() + old(self).nodes(),
            crate::dht::transaction::issue_next(old(self).generator().pending(), crate::dht::transaction::message_part(r.trans_id))
                == Some(final(self).generator().pending()),
    {
        self.active_messages.clear();
        self.curr_bootstrap_bucket = 0;
        let trans_id = self.id_generator.generate();
        let message = FindNodeRequest::new(trans_id.as_ref(), self.table_id, self.table_id).encode();
        let mut addrs: Vec<NodeAddr> = Vec::new();
        let mut i: usize = 0;
        while i < self.starting_routers.len()
            invariant
                i <= self.starting_routers@.len(),
                addrs@ == self.starting_routers@.subrange(0, i as int),
            decreases self.starting_routers@.len() - i,
        {
            addrs.push(self.starting_routers[i]);
            i = i + 1;
            assert(addrs@ =~= self.starting_routers@.subrange(0, i as int));
        }
        let mut j: usize = 0;
        while j < self.starting_nodes.len()
            invariant
                j <= self.starting_nodes@.len(),
                addrs@ == self.starting_routers@ + self.starting_nodes@.subrange(0, j as int),
            decreases self.starting_nodes@.len() - j,
        {
            addrs.push(self.starting_nodes[j]);
            j = j + 1;
            assert(addrs@ =~= self.starting_routers@ + self.starting_nodes@.subrange(0, j as int));
        }
        assert(self.starting_nodes@.subrange(0, j as int) =~= self.starting_nodes@);
        BootstrapStart { trans_id, message, addrs }
    }

    /// Keeps `timeout` as the handle of the timeout scheduled for the request `trans_id`.
    pub fn record_timeout(&mut self, trans_id: TransactionID, timeout: T)
        ensures
            final(self).wf() == old(self).wf(),
            final(self).table_id() == old(self).table_id(),
            final(self).generator() == old(self).generator(),
            final(self).nodes() == old(self).nodes(),
            final(self).routers() == old(self).routers(),
            final(self).bucket() == old(self).bucket(),
            final(self).active() == insert_active(old(self).active(), trans_id, timeout),
    {
        proof {
            lemma_find_active(self.active(), trans_id);
        }
        match self.find_message(&trans_id) {
            Some(i) => {
                self.active_messages.set(i, (trans_id, timeout));
            },
            None => {
                self.active_messages.push((trans_id, timeout));
            },
        }
    }

    /// The nodes to ask at time `now` while bootstrapping bucket `c` (see
    /// `bootstrap_candidates`).
    fn candidates_at(&self, table: &RoutingTable, c: usize, now: i64) -> (r: Vec<Node>)
        requires
            table.wf(),
            c < MAX_BUCKETS,
        ensures
            nodes_view(r@) == bootstrap_candidates(table@, self.table_id(), c as int, now as int),
    {
        let target = flip_id_bit_at_index(self.table_id, c);
        let mut pool: Vec<Node>;
        if c < 2 {
            pool = table.closest_nodes_at(&target, now);
        } else {
            let listing = table.buckets();
            pool = Vec::new();
            assert(nodes_view(pool@) =~= Seq::<NodeView>::empty());
            push_listed(&listing, c - 2, &mut pool);
            push_listed(&listing, c - 1, &mut pool);
            push_listed(&listing, c, &mut pool);
            assert forall|k: int| 0 <= k < MAX_BUCKETS + 1 implies (if k < listing@.len() {
                match crate::dht::routing::table::contents_view(#[trigger] listing@[k]) {
                    Some((s, _)) => s,
                    None => Seq::empty(),
                }
            } else {
                Seq::<NodeView>::empty()
            }) == listed_nodes(table@, k) by {
                if k < listing@.len() {
                    assert(crate::dht::routing::table::contents_view(listing@[k]) == bucket_listing(table@.buckets, k));
                }
            }
            assert(nodes_view(pool@) =~= Seq::<NodeView>::empty() + listed_nodes(table@, c - 2) + listed_nodes(
                table@,
                c - 1,
            ) + listed_nodes(table@, c as int));
        }
        take_questionable_nodes(&pool, now, BOOTSTRAP_PINGS_PER_BUCKET)
    }

    /// Goes on at time `now` with the next bucket that has nodes to ask (or the last bucket):
    /// hands out a find-node request for each of them and records it in the table, and gives
    /// the status: complete after the last bucket (see `bootstrap_planned`).
    fn bootstrap_next_bucket(&mut self, table: &mut RoutingTable, now: i64) -> (r: (
        Vec<BootstrapRequest>,
        BootstrapStatus,
    ))
        requires
            old(self).wf(),
            old(table).wf(),
            old(self).bucket() < MAX_BUCKETS,
        ensures
            final(self).wf(),
            final(table).wf(),
            final(self).table_id() == old(self).table_id(),
            final(self).nodes() == old(self).nodes(),
            final(self).routers() == old(self).routers(),
            final(self).active() == old(self).active(),
            final(self).generator().action_value() == old(self).generator().action_value(),
            bootstrap_planned(
                old(self).table_id(),
                old(self).generator().action_value(),
                old(self).bucket(),
                old(table)@,
                now as int,
                r.0@,
                r.1,
                final(self).bucket(),
                final(table)@,
            ),
            crate::dht::transaction::issued(old(self).generator().pending(), request_message_ids(r.0@)) == Some(
                final(self).generator().pending(),
            ),
    {
        let ghost t0 = table@;
        let ghost id = self.table_id@;
        let ghost action = self.id_generator.action_value();
        let ghost goal = next_bootstrap_bucket(t0, id, self.curr_bootstrap_bucket as int, now as int);
        loop
            invariant
                self.wf(),
                table.wf(),
                table@ == t0,
                t0 == old(table)@,
                id == self.table_id@,
                id == old(self).table_id(),
                self.starting_nodes@ == old(self).nodes(),
                self.starting_routers@ == old(self).routers(),
                self.active_messages@ == old(self).active(),
                action == self.id_generator.action_value(),
                action == old(self).generator().action_value(),
                self.curr_bootstrap_bucket < MAX_BUCKETS,
                goal == next_bootstrap_bucket(t0, id, old(self).bucket(), now as int),
                goal == next_bootstrap_bucket(t0, id, self.curr_bootstrap_bucket as int, now as int),
                self.id_generator.pending() == old(self).generator().pending(),
            decreases MAX_BUCKETS - self.curr_bootstrap_bucket,
        {
            let c = self.curr_bootstrap_bucket;
            let cands = self.candidates_at(table, c, now);
            if cands.len() == 0 && c + 1 < MAX_BUCKETS {
                self.curr_bootstrap_bucket = c + 1;
            } else {
                assert(goal == c);
                let target = flip_id_bit_at_index(self.table_id, c);
                let ghost cv = nodes_view(cands@);
                let mut requests: Vec<BootstrapRequest> = Vec::new();
                assert(request_message_ids(requests@) =~= Seq::<u64>::empty());
                let mut j: usize = 0;
                assert(cv.subrange(0, 0) =~= Seq::<NodeView>::empty());
                while j < cands.len()
                    invariant
                        self.id_generator.wf(),
                        self.curr_bootstrap_bucket == c,
                        c < MAX_BUCKETS,
                        goal == c,
                        t0 == old(table)@,
                        id == old(self).table_id(),
                        action == old(self).generator().action_value(),
                        goal == next_bootstrap_bucket(t0, id, old(self).bucket(), now as int),
                        self.starting_nodes@ == old(self).nodes(),
                        self.starting_routers@ == old(self).routers(),
                        self.active_messages@ == old(self).active(),
                        cv == bootstrap_candidates(t0, id, c as int, now as int),
                        action == self.id_generator.action_value(),
                        id == self.table_id@,
                        table.wf(),
                        cv == nodes_view(cands@),
                        target@ == flip_bit(id, c as int),
                        j <= cands@.len(),
                        table@ == record_requests(t0, cv.subrange(0, j as int), now as int),
                        requests_for(requests@, cv.subrange(0, j as int), id, target@, action),
                        crate::dht::transaction::issued(old(self).generator().pending(), request_message_ids(requests@))
                            == Some(self.id_generator.pending()),
                    decreases cands@.len() - j,
                {
                    let ghost pend0 = self.id_generator.pending();
                    let trans_id = self.id_generator.generate();
                    let message = FindNodeRequest::new(trans_id.as_ref(), self.table_id, target).encode();
                    let node = cands[j];
                    let ghost prev = table@;
                    table.local_request_at(&node, now);
                    let req = BootstrapRequest { trans_id, message, addr: node.addr() };
                    let ghost before = requests@;
                    requests.push(req);
                    proof {
                        assert(request_message_ids(requests@) =~= request_message_ids(before).push(
                            crate::dht::transaction::message_part(trans_id),
                        ));
                        crate::dht::transaction::lemma_issued_push(
                            old(self).generator().pending(),
                            request_message_ids(before),
                            crate::dht::transaction::message_part(trans_id),
                        );
                    }
                    j = j + 1;
                    assert(cv.subrange(0, j as int).drop_last() =~= cv.subrange(0, j - 1));
                    assert(cv.subrange(0, j as int).last() == node@);
                    assert forall|k: int| 0 <= k < requests@.len() implies (#[trigger] requests@[k]).addr == cv.subrange(
                        0,
                        j as int,
                    )[k].addr && requests@[k].message@ == encode_value(
                        find_node_request_value(requests@[k].trans_id.bytes(), id, target@),
                    ) && requests@[k].trans_id.value() / 0x100_0000 == action by {
                        if k < j - 1 {
                            assert(requests@[k] == before[k]);
                        }
                    }
                }
                assert(cv.subrange(0, j as int) =~= cv);
                self.curr_bootstrap_bucket = c + 1;
                let status = if c + 1 == MAX_BUCKETS {
                    BootstrapStatus::Completed
                } else {
                    BootstrapStatus::Bootstrapping
                };
                return (requests, status);
            }
        }
    }

    /// Handles at time `now` the response to the request `trans_id`. A response to a request
    /// that is not outstanding changes nothing. Otherwise, unless it answers the first
    /// request (whose timeout starts the buckets off), the request is no longer outstanding
    /// and its timeout is to be cancelled; once no request is outstanding the bootstrap goes
    /// on with the next bucket (see `bootstrap_planned`).
    pub fn recv_response_at(&mut self, trans_id: &TransactionID, table: &mut RoutingTable, now: i64) -> (step:
        BootstrapStep<T>)
        requires
            old(self).wf(),
            old(table).wf(),
            old(self).bucket() == MAX_BUCKETS ==> !response_goes_on(old(self).active(), old(self).bucket(), *trans_id),
        ensures
            final(self).wf(),
            final(table).wf(),
            response_step_spec(*old(self), *final(self), old(table)@, final(table)@, *trans_id, now as int, step),
    {
        proof {
            lemma_find_active(self.active(), *trans_id);
        }
        let index = match self.find_message(trans_id) {
            None => {
                return BootstrapStep { cleared: None, requests: Vec::new(), status: self.current_bootstrap_status() };
            },
            Some(i) => i,
        };
        let mut cleared: Option<T> = None;
        if self.curr_bootstrap_bucket != 0 {
            let (_, timeout) = self.active_messages.remove(index);
            cleared = Some(timeout);
        }
        if self.active_messages.len() == 0 {
            let (requests, status) = self.bootstrap_next_bucket(table, now);
            return BootstrapStep { cleared, requests, status };
        }
        BootstrapStep { cleared, requests: Vec::new(), status: self.current_bootstrap_status() }
    }

    /// Handles at time `now` the timeout of the request `trans_id`. A timeout of a request
    /// that is not outstanding changes nothing. Otherwise the request is no longer
    /// outstanding, and once no request is outstanding the bootstrap goes on with the next
    /// bucket (see `bootstrap_planned`).
    pub fn recv_timeout_at(&mut self, trans_id: &TransactionID, table: &mut RoutingTable, now: i64) -> (step:
        BootstrapStep<T>)
        requires
            old(self).wf(),
            old(table).wf(),
            old(self).bucket() == MAX_BUCKETS ==> !timeout_goes_on(old(self).active(), *trans_id),
        ensures
            final(self).wf(),
            final(table).wf(),
            timeout_step_spec(*old(self), *final(self), old(table)@, final(table)@, *trans_id, now as int, step),
    {
        proof {
            lemma_find_active(self.active(), *trans_id);
        }
        let index = match self.find_message(trans_id) {
            None => {
                return BootstrapStep { cleared: None, requests: Vec::new(), status: self.current_bootstrap_status() };
            },
            Some(i) => i,
        };
        self.active_messages.remove(index);
        if self.active_messages.len() == 0 {
            let (requests, status) = self.bootstrap_next_bucket(table, now);
            return BootstrapStep { cleared: None, requests, status };
        }
        BootstrapStep { cleared: None, requests: Vec::new(), status: self.current_bootstrap_status() }
    }

    /// Handles the response to the request `trans_id` now (see `recv_response_at`).
    pub fn recv_response(&mut self, trans_id: &TransactionID, table: &mut RoutingTable) -> (step: BootstrapStep<T>)
        requires
            old(self).wf(),
            old(table).wf(),
            old(self).bucket() == MAX_BUCKETS ==> !response_goes_on(old(self).active(), old(self).bucket(), *trans_id),
        ensures
            final(self).wf(),
            final(table).wf(),
            exists|now: i64|
                #[trigger] response_step_spec(*old(self), *final(self), old(table)@, final(table)@, *trans_id, now as int, step),
    {
        let now = now_millis();
        let step = self.recv_response_at(trans_id, table, now);
        assert(response_step_spec(*old(self), *self, old(table)@, table@, *trans_id, now as int, step));
        step
    }

    /// Handles the timeout of the request `trans_id` now (see `recv_timeout_at`).
    pub fn recv_timeout(&mut self, trans_id: &TransactionID, table: &mut RoutingTable) -> (step: BootstrapStep<T>)
        requires
            old(self).wf(),
            old(table).wf(),
            old(self).bucket() == MAX_BUCKETS ==> !timeout_goes_on(old(self).active(), *trans_id),
        ensures
            final(self).wf(),
            final(table).wf(),
            exists|now: i64|
                #[trigger] timeout_step_spec(*old(self), *final(self), old(table)@, final(table)@, *trans_id, now as int, step),
    {
        let now = now_millis();
        let step = self.recv_timeout_at(trans_id, table, now);
        assert(timeout_step_spec(*old(self), *self, old(table)@, table@, *trans_id, now as int, step));
        step
    }

    /// Index of the outstanding request `trans_id`, if any.
    fn find_message(&self, trans_id: &TransactionID) -> (r: Option<usize>)
        ensures
            match find_active(self.active(), *trans_id) {
                Some(i) => r == Some(i as usize),
                None => r is None,
            },
    {
        let mut i = self.active_messages.len();
        assert(self.active_messages@.subrange(0, i as int) =~= self.active_messages@);
        while i > 0
            invariant
                i <= self.active_messages@.len(),
                find_active(self.active_messages@, *trans_id) == find_active(
                    self.active_messages@.subrange(0, i as int),
                    *trans_id,
                ),
            decreases i,
        {
            let ghost prefix = self.active_messages@.subrange(0, i as int);
            assert(prefix.drop_last() =~= self.active_messages@.subrange(0, i - 1));
            if self.active_messages[i - 1].0.same_as(trans_id) {
                return Some(i - 1);
            }
            i = i - 1;
        }
        assert(self.active_messages@.subrange(0, 0) =~= Seq::<(TransactionID, T)>::empty());
        None
    }
}

} // verus!
