//! The decisions of the DHT's workers: bootstrapping the table and refreshing its buckets.
use vstd::prelude::*;

use crate::dht::routing::bucket::nodes_view;
use crate::dht::routing::node::{node_status, now_millis, NodeId, NodeStatus, NodeView};
use crate::dht::routing::table::{closest_from, shared_bits, RoutingTable};
use crate::dht::transaction::TransactionID;
use crate::dht::worker::bootstrap::BootstrapStatus;

pub mod bootstrap;
pub mod handler;
pub mod lookup;
pub mod refresh;

verus! {

/// Number of good nodes at or below which a finished bootstrap is tried again.
pub const BOOTSTRAP_GOOD_NODE_THRESHOLD: usize = 10;

/// Number of nodes of `s` that are good at time `now`.
pub open spec fn count_good(s: Seq<NodeView>, now: int) -> nat
    decreases s.len(),
{
    if s.len() == 0 {
        0
    } else {
        count_good(s.drop_last(), now) + if node_status(s.last(), now) == NodeStatus::Good {
            1nat
        } else {
            0nat
        }
    }
}

/// The good and questionable nodes of table `t` closest at time `now` to our own id.
pub open spec fn closest_to_own_id(t: crate::dht::routing::table::TableView, now: int) -> Seq<NodeView> {
    let start = shared_bits(t.node_id, t.node_id);
    closest_from(t, start, start, now)
}

/// Number of nodes of the table that are good at time `now`, among the nodes closest to our
/// own id.
pub fn num_good_nodes_at(table: &RoutingTable, now: i64) -> (r: usize)
    requires
        table.wf(),
    ensures
        r == count_good(closest_to_own_id(table@, now as int), now as int),
{
    let id = table.node_id();
    let nodes = table.closest_nodes_at(&id, now);
    let ghost s = nodes_view(nodes@);
    let mut count: usize = 0;
    let mut i: usize = 0;
    while i < nodes.len()
        invariant
            s == nodes_view(nodes@),
            i <= nodes@.len(),
            count <= i,
            count == count_good(s.subrange(0, i as int), now as int),
        decreases nodes@.len() - i,
    {
        assert(s.subrange(0, i + 1).drop_last() =~= s.subrange(0, i as int));
        if nodes[i].status_at(now) == NodeStatus::Good {
            count = count + 1;
        }
        i = i + 1;
    }
    assert(s.subrange(0, i as int) =~= s);
    count
}

/// Number of nodes of the table that are good now, among the nodes closest to our own id
/// (see `num_good_nodes_at`).
pub fn num_good_nodes(table: &RoutingTable) -> (r: usize)
    requires
        table.wf(),
    ensures
        exists|now: i64| r == count_good(closest_to_own_id(table@, now as int), now as int),
{
    let now = now_millis();
    let r = num_good_nodes_at(table, now);
    assert(r == count_good(closest_to_own_id(table@, now as int), now as int));
    r
}

/// Whether a finished bootstrap is to be tried again at time `now`: when the table has at most
/// `BOOTSTRAP_GOOD_NODE_THRESHOLD` good nodes.
pub fn should_rebootstrap_at(table: &RoutingTable, now: i64) -> (r: bool)
    requires
        table.wf(),
    ensures
        r == (count_good(closest_to_own_id(table@, now as int), now as int) <= BOOTSTRAP_GOOD_NODE_THRESHOLD),
{
    num_good_nodes_at(table, now) <= BOOTSTRAP_GOOD_NODE_THRESHOLD
}

/// Whether a finished bootstrap is to be tried again now (see `should_rebootstrap_at`).
pub fn should_rebootstrap(table: &RoutingTable) -> (r: bool)
    requires
        table.wf(),
    ensures
        exists|now: i64| r == (count_good(closest_to_own_id(table@, now as int), now as int) <= BOOTSTRAP_GOOD_NODE_THRESHOLD),
{
    let now = now_millis();
    let r = should_rebootstrap_at(table, now);
    assert(r == (count_good(closest_to_own_id(table@, now as int), now as int) <= BOOTSTRAP_GOOD_NODE_THRESHOLD));
    r
}

/// Bootstrap attempts after which the DHT stops trying again.
pub const MAX_BOOTSTRAP_ATTEMPTS: usize = 3;

/// What the DHT does after a bootstrap step.
#[derive(Copy, Clone, PartialEq, Eq, Structural, Debug)]
pub enum BootstrapVerdict {
    /// The bootstrap is over: announce it and start what waited for it.
    Complete,
    /// The bootstrap goes on.
    Pending,
    /// Shut the DHT down.
    Shutdown(ShutdownCause),
    /// Try the bootstrap again.
    Retry,
}

/// What a bootstrap step that reported `status` leads to, given whether the table has too
/// few good nodes (`rebootstrap`): an idle bootstrap is complete; one in progress goes on; a
/// failed one shuts the DHT down; a completed one is tried again when the table has too few
/// good nodes, and is complete otherwise.
pub fn bootstrap_verdict(status: BootstrapStatus, rebootstrap: bool) -> (v: BootstrapVerdict)
    ensures
        v == match status {
            BootstrapStatus::Idle => BootstrapVerdict::Complete,
            BootstrapStatus::Bootstrapping => BootstrapVerdict::Pending,
            BootstrapStatus::Failed => BootstrapVerdict::Shutdown(ShutdownCause::Unspecified),
            BootstrapStatus::Completed => if rebootstrap {
                BootstrapVerdict::Retry
            } else {
                BootstrapVerdict::Complete
            },
        },
{
    match status {
        BootstrapStatus::Idle => BootstrapVerdict::Complete,
        BootstrapStatus::Bootstrapping => BootstrapVerdict::Pending,
        BootstrapStatus::Failed => BootstrapVerdict::Shutdown(ShutdownCause::Unspecified),
        BootstrapStatus::Completed => if rebootstrap {
            BootstrapVerdict::Retry
        } else {
            BootstrapVerdict::Complete
        },
    }
}

/// Counts one more bootstrap attempt in `attempts` and decides on it: after
/// `MAX_BOOTSTRAP_ATTEMPTS` attempts the DHT shuts down when it has no good node
/// (`good_nodes`), and the bootstrap is complete otherwise; before that, it is tried again.
pub fn retry_verdict(attempts: &mut usize, good_nodes: usize) -> (v: BootstrapVerdict)
    requires
        *old(attempts) < usize::MAX,
    ensures
        *final(attempts) == *old(attempts) + 1,
        v == (if *final(attempts) >= MAX_BOOTSTRAP_ATTEMPTS {
            if good_nodes == 0 {
                BootstrapVerdict::Shutdown(ShutdownCause::BootstrapFailed)
            } else {
                BootstrapVerdict::Complete
            }
        } else {
            BootstrapVerdict::Retry
        }),
{
    *attempts = *attempts + 1;
    if *attempts >= MAX_BOOTSTRAP_ATTEMPTS {
        if good_nodes == 0 {
            BootstrapVerdict::Shutdown(ShutdownCause::BootstrapFailed)
        } else {
            BootstrapVerdict::Complete
        }
    } else {
        BootstrapVerdict::Retry
    }
}

/// Work the DHT schedules for later.
#[derive(Copy, Clone, Debug)]
pub enum ScheduledTask {
    /// Check the progress of the bucket refresh.
    CheckTableRefresh(TransactionID),
    /// Check the progress of the current bootstrap.
    CheckBootstrapTimeout(TransactionID),
    /// Check the progress of a current lookup.
    CheckLookupTimeout(TransactionID),
    /// Check the progress of the lookup endgame.
    CheckLookupEndGame(TransactionID),
}

/// Why the DHT shut down.
#[derive(Copy, Clone, PartialEq, Eq, Structural, Debug)]
pub enum ShutdownCause {
    /// The bootstrap failed more than once.
    BootstrapFailed,
    /// The client shut it down.
    ClientInitiated,
    /// No cause given.
    Unspecified,
}

/// Something that happened in the DHT that clients may want to know.
#[derive(Copy, Clone, Debug)]
pub enum DhtEvent {
    /// The bootstrap completed.
    BootstrapCompleted,
    /// The lookup of the info hash completed.
    LookupCompleted(NodeId),
    /// The DHT is shutting down.
    ShuttingDown(ShutdownCause),
}

} // verus!
