use vstd::prelude::*;

use crate::bencode::spec::encode_value;
use crate::dht::message::find_node::{find_node_request_value, FindNodeRequest};
use crate::dht::routing::bucket::nodes_view;
use crate::dht::routing::node::{node_status, now_millis, NodeAddr, NodeStatus, NodeView};
use crate::dht::routing::table::{
    closest_from, flip_bit, flip_id_bit_at_index, record_request, shared_bits, RoutingTable, MAX_BUCKETS,
};
use crate::dht::transaction::{MIDGenerator, TransactionID};

verus! {

/// Milliseconds between two refresh steps.
pub const REFRESH_INTERVAL_TIMEOUT: u64 = 6000;

/// How a table refresh goes on.
#[derive(Copy, Clone, PartialEq, Eq, Structural, Debug)]
pub enum RefreshStatus {
    /// The refresh is in progress.
    Refreshing,
    /// The refresh failed in a fatal way.
    Failed,
}

/// A find-node request to send while refreshing: its transaction id, its bencode, and the
/// node to send it to.
pub struct RefreshRequest {
    pub trans_id: TransactionID,
    pub message: Vec<u8>,
    pub addr: NodeAddr,
}

/// What one refresh step asks to be done: send the request, if there is one, then schedule
/// the next step under `timeout_id`.
pub struct RefreshStep {
    pub request: Option<RefreshRequest>,
    pub timeout_id: TransactionID,
}

/// `i` is the first position of `s` with a questionable node at time `now`.
pub open spec fn first_questionable(s: Seq<NodeView>, now: int, i: int) -> bool {
    &&& 0 <= i < s.len()
    &&& node_status(s[i], now) == NodeStatus::Questionable
    &&& forall|j: int| 0 <= j < i ==> node_status(#[trigger] s[j], now) != NodeStatus::Questionable
}

/// The bucket a refresh step works on, after `curr` steps: it starts over after the last one.
pub open spec fn refresh_bucket(curr: int) -> int {
    if curr == MAX_BUCKETS {
        0
    } else {
        curr
    }
}

/// The good and questionable nodes of table `t` closest at time `now` to the id that differs
/// from ours in bit `b` only.
pub open spec fn refresh_candidates(t: crate::dht::routing::table::TableView, b: int, now: int) -> Seq<NodeView> {
    let start = shared_bits(t.node_id, flip_bit(t.node_id, b));
    closest_from(t, start, start, now)
}

/// One refresh step at time `now` (see `TableRefresh::continue_refresh_at`): from refresh
/// `before` and table `t` to refresh `after` and table `t2`, handing out `step`.
pub open spec fn refresh_step_spec(
    before: TableRefresh,
    after: TableRefresh,
    t: crate::dht::routing::table::TableView,
    t2: crate::dht::routing::table::TableView,
    now: int,
    step: RefreshStep,
) -> bool {
    let b = refresh_bucket(before.bucket());
    let target = flip_bit(t.node_id, b);
    let close = refresh_candidates(t, b, now);
    &&& after.bucket() == b + 1
    &&& after.generator().action_value() == before.generator().action_value()
    &&& step.timeout_id.value() / 0x100_0000 == before.generator().action_value()
    &&& crate::dht::transaction::issued(
        before.generator().pending(),
        match step.request {
            Some(req) => seq![
                crate::dht::transaction::message_part(req.trans_id),
                crate::dht::transaction::message_part(step.timeout_id),
            ],
            None => seq![crate::dht::transaction::message_part(step.timeout_id)],
        },
    ) == Some(after.generator().pending())
    &&& match step.request {
        None => (forall|i: int| !first_questionable(close, now, i)) && t2 == t,
        Some(req) => exists|i: int|
            first_questionable(close, now, i) && req.addr == close[i].addr && req.message@ == encode_value(
                find_node_request_value(req.trans_id.bytes(), t.node_id, target),
            ) && req.trans_id.value() / 0x100_0000 == before.generator().action_value() && t2 == record_request(
                t,
                close[i],
                now,
            ),
    }
}

/// Refreshes the buckets of the routing table, one bucket per step: each step asks the
/// questionable node closest to an id that falls in the bucket for more nodes.
pub struct TableRefresh {
    id_generator: MIDGenerator,
    curr_refresh_bucket: usize,
}

impl TableRefresh {
    /// The id generator is consistent and the bucket count is in range.
    pub closed spec fn wf(self) -> bool {
        &&& self.id_generator.wf()
        &&& self.curr_refresh_bucket <= MAX_BUCKETS
    }

    /// The number of steps taken since the refresh last started over.
    pub closed spec fn bucket(self) -> int {
        self.curr_refresh_bucket as int
    }

    /// The generator of the transaction ids of the refresh.
    pub closed spec fn generator(self) -> MIDGenerator {
        self.id_generator
    }

    /// A refresh that starts with the first bucket.
    pub fn new(id_generator: MIDGenerator) -> (r: TableRefresh)
        requires
            id_generator.wf(),
        ensures
            r.wf(),
            r.bucket() == 0,
            r.generator() == id_generator,
    {
        TableRefresh { id_generator, curr_refresh_bucket: 0 }
    }

    /// One refresh step at time `now`. It takes the bucket after the last one refreshed
    /// (starting over after the last bucket), and the id that differs from ours in that
    /// bucket's bit. If a questionable node is among the nodes closest to that id, it builds a
    /// find-node request for the id to send to the first such node and records the request
    /// against that node in the table. It then hands out the transaction id under which to
    /// schedule the next step.
    pub fn continue_refresh_at(&mut self, table: &mut RoutingTable, now: i64) -> (step: RefreshStep)
        requires
            old(self).wf(),
            old(table).wf(),
        ensures
            final(self).wf(),
            final(table).wf(),
            refresh_step_spec(*old(self), *final(self), old(table)@, final(table)@, now as int, step),
    {
        if self.curr_refresh_bucket == MAX_BUCKETS {
            self.curr_refresh_bucket = 0;
        }
        let b = self.curr_refresh_bucket;
        let ghost t0 = table@;
        let node_id = table.node_id();
        let target = flip_id_bit_at_index(node_id, b);
        let nodes = table.closest_nodes_at(&target, now);
        let ghost close = nodes_view(nodes@);
        let mut request: Option<RefreshRequest> = None;
        let ghost p0 = self.id_generator.pending();
        let mut i: usize = 0;
        while i < nodes.len()
            invariant
                close == nodes_view(nodes@),
                i <= nodes@.len(),
                forall|j: int| 0 <= j < i ==> node_status(#[trigger] close[j], now as int) != NodeStatus::Questionable,
            ensures
                i <= nodes@.len(),
                forall|j: int| 0 <= j < i ==> node_status(#[trigger] close[j], now as int) != NodeStatus::Questionable,
                i < nodes@.len() ==> node_status(close[i as int], now as int) == NodeStatus::Questionable,
            decreases nodes@.len() - i,
        {
            if nodes[i].status_at(now) == NodeStatus::Questionable {
                break;
            }
            i = i + 1;
        }
        if i < nodes.len() {
            let node = nodes[i];
            assert(first_questionable(close, now as int, i as int));
            let trans_id = self.id_generator.generate();
            assert(crate::dht::transaction::issue_next(p0, crate::dht::transaction::message_part(trans_id)) == Some(
                self.id_generator.pending(),
            ));
            let find_node_req = FindNodeRequest::new(trans_id.as_ref(), node_id, target);
            let message = find_node_req.encode();
            table.local_request_at(&node, now);
            let req = RefreshRequest { trans_id, message, addr: node.addr() };
            assert(close[i as int] == node@);
            assert(first_questionable(close, now as int, i as int) && req.addr == close[i as int].addr
                && req.message@ == encode_value(find_node_request_value(req.trans_id.bytes(), t0.node_id, target@))
                && table@ == record_request(t0, close[i as int], now as int));
            request = Some(req);
        } else {
            assert forall|k: int| !first_questionable(close, now as int, k) by {}
        }
        let ghost p1 = self.id_generator.pending();
        let timeout_id = self.id_generator.generate();
        proof {
            if request is Some {
                let tid = request->Some_0.trans_id;
                let ms = seq![crate::dht::transaction::message_part(tid), crate::dht::transaction::message_part(timeout_id)];
                assert(ms.drop_last() =~= seq![crate::dht::transaction::message_part(tid)]);
                assert(ms.drop_last().drop_last() =~= Seq::<u64>::empty());
                assert(crate::dht::transaction::issued(p0, ms.drop_last().drop_last()) == Some(p0));
                assert(crate::dht::transaction::issued(p0, ms.drop_last()) == Some(p1));
                assert(crate::dht::transaction::issued(p0, ms) == Some(self.id_generator.pending()));
            } else {
                let ms = seq![crate::dht::transaction::message_part(timeout_id)];
                assert(ms.drop_last() =~= Seq::<u64>::empty());
                assert(crate::dht::transaction::issued(p0, ms.drop_last()) == Some(p0));
                assert(crate::dht::transaction::issued(p0, ms) == Some(self.id_generator.pending()));
            }
        }
        self.curr_refresh_bucket = self.curr_refresh_bucket + 1;
        assert(b == refresh_bucket(old(self).bucket()));
        assert(t0 == old(table)@);
        assert(target@ == flip_bit(t0.node_id, b as int));
        assert(close == refresh_candidates(t0, b as int, now as int));
        RefreshStep { request, timeout_id }
    }

    /// One refresh step now (see `continue_refresh_at`).
    pub fn continue_refresh(&mut self, table: &mut RoutingTable) -> (step: RefreshStep)
        requires
            old(self).wf(),
            old(table).wf(),
        ensures
            final(self).wf(),
            final(table).wf(),
            exists|now: i64|
                #[trigger] refresh_step_spec(*old(self), *final(self), old(table)@, final(table)@, now as int, step),
    {
        let now = now_millis();
        let step = self.continue_refresh_at(table, now);
        assert(refresh_step_spec(*old(self), *self, old(table)@, table@, now as int, step));
        step
    }
}

/// Successive refresh steps: step `i`, at time `nows[i]`, takes refresh `rs[i]` and table
/// `ts[i]` to `rs[i + 1]` and `ts[i + 1]`, handing out `steps[i]`.
pub open spec fn refresh_run(
    rs: Seq<TableRefresh>,
    ts: Seq<crate::dht::routing::table::TableView>,
    nows: Seq<int>,
    steps: Seq<RefreshStep>,
) -> bool {
    &&& rs.len() == steps.len() + 1
    &&& ts.len() == steps.len() + 1
    &&& nows.len() == steps.len()
    &&& forall|i: int| 0 <= i < steps.len() ==> refresh_step_spec(rs[i], rs[i + 1], ts[i], ts[i + 1], nows[i], #[trigger] steps[i])
}

/// A refresh that starts with the first bucket works through the buckets in turn, starting
/// over after the last: step `i` works on bucket `i % MAX_BUCKETS`, and a request it sends
/// asks for the id that differs from ours in that bit. The table keeps our id, and every
/// transaction id the refresh hands out, in a request or for its next step, carries the
/// action id of the generator it started with.
pub proof fn lemma_refresh_run(
    rs: Seq<TableRefresh>,
    ts: Seq<crate::dht::routing::table::TableView>,
    nows: Seq<int>,
    steps: Seq<RefreshStep>,
)
    requires
        refresh_run(rs, ts, nows, steps),
        rs[0].bucket() == 0,
    ensures
        forall|i: int| 0 <= i < rs.len() ==> (#[trigger] rs[i].generator()).action_value() == rs[0].generator().action_value(),
        forall|i: int| 0 <= i < ts.len() ==> (#[trigger] ts[i]).node_id == ts[0].node_id,
        forall|i: int| 0 <= i < steps.len() ==> refresh_bucket((#[trigger] rs[i]).bucket()) == i % (MAX_BUCKETS as int),
        forall|i: int| 0 <= i < steps.len() ==> (#[trigger] steps[i]).timeout_id.value() / 0x100_0000
            == rs[0].generator().action_value(),
        forall|i: int| 0 <= i < steps.len() ==> match (#[trigger] steps[i]).request {
            Some(req) => req.trans_id.value() / 0x100_0000 == rs[0].generator().action_value() && req.message@
                == encode_value(
                find_node_request_value(req.trans_id.bytes(), ts[0].node_id, flip_bit(ts[0].node_id, i % (MAX_BUCKETS as int))),
            ),
            None => true,
        },
    decreases steps.len(),
{
    if steps.len() > 0 {
        let k = steps.len() - 1;
        let rp = rs.drop_last();
        let tp = ts.drop_last();
        let np = nows.drop_last();
        let sp = steps.drop_last();
        assert(refresh_run(rp, tp, np, sp)) by {
            assert forall|i: int| 0 <= i < sp.len() implies refresh_step_spec(rp[i], rp[i + 1], tp[i], tp[i + 1], np[i], #[trigger] sp[i]) by {
                assert(sp[i] == steps[i]);
                assert(rp[i] == rs[i] && rp[i + 1] == rs[i + 1] && tp[i] == ts[i] && tp[i + 1] == ts[i + 1] && np[i] == nows[i]);
            }
        }
        lemma_refresh_run(rp, tp, np, sp);
        assert(rp[k] == rs[k] && tp[k] == ts[k]);
        assert(refresh_step_spec(rs[k], rs[k + 1], ts[k], ts[k + 1], nows[k], steps[k]));
        let m = MAX_BUCKETS as int;
        if k > 0 {
            assert(refresh_step_spec(rs[k - 1], rs[k], ts[k - 1], ts[k], nows[k - 1], steps[k - 1]));
            assert(sp[k - 1] == steps[k - 1] && rp[k - 1] == rs[k - 1]);
            assert(refresh_bucket(rs[k - 1].bucket()) == (k - 1) % m);
            assert(refresh_bucket(rs[k].bucket()) == k % m) by {
                assert(rs[k].bucket() == (k - 1) % m + 1);
                assert((k - 1) % m + 1 == m ==> k % m == 0);
                assert((k - 1) % m + 1 != m ==> k % m == (k - 1) % m + 1);
            }
        }
        let b = refresh_bucket(rs[k].bucket());
        let close = refresh_candidates(ts[k], b, nows[k]);
        match steps[k].request {
            Some(req) => {
                let j = choose|j: int|
                    first_questionable(close, nows[k], j) && req.addr == close[j].addr && req.message@ == encode_value(
                        find_node_request_value(req.trans_id.bytes(), ts[k].node_id, flip_bit(ts[k].node_id, b)),
                    ) && req.trans_id.value() / 0x100_0000 == rs[k].generator().action_value() && ts[k + 1]
                        == record_request(ts[k], close[j], nows[k]);
            },
            None => {},
        }
        assert forall|i: int| 0 <= i < rs.len() implies (#[trigger] rs[i].generator()).action_value()
            == rs[0].generator().action_value() by {
            if i < rs.len() - 1 {
                assert(rp[i] == rs[i]);
            }
        }
        assert forall|i: int| 0 <= i < ts.len() implies (#[trigger] ts[i]).node_id == ts[0].node_id by {
            if i < ts.len() - 1 {
                assert(tp[i] == ts[i]);
            }
        }
        assert forall|i: int| 0 <= i < steps.len() implies refresh_bucket((#[trigger] rs[i]).bucket()) == i % m by {
            if i < k {
                assert(rp[i] == rs[i] && sp[i] == steps[i]);
            }
        }
        assert forall|i: int| 0 <= i < steps.len() implies (#[trigger] steps[i]).timeout_id.value() / 0x100_0000
            == rs[0].generator().action_value() by {
            if i < k {
                assert(sp[i] == steps[i]);
            }
        }
        assert forall|i: int| 0 <= i < steps.len() implies match (#[trigger] steps[i]).request {
            Some(req) => req.trans_id.value() / 0x100_0000 == rs[0].generator().action_value() && req.message@
                == encode_value(
                find_node_request_value(req.trans_id.bytes(), ts[0].node_id, flip_bit(ts[0].node_id, i % m)),
            ),
            None => true,
        } by {
            if i < k {
                assert(sp[i] == steps[i]);
            }
        }
    }
}

} // verus!
