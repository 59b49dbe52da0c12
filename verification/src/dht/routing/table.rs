use vstd::prelude::*;
use vstd::array::ArrayAdditionalExecFns;

use crate::dht::routing::bucket::{
    bucket_add, bucket_add_result, first_same, first_worse, is_pingable, lemma_bucket_add_shape, lemma_nodes_view_push, nodes_view,
    placeholder, Bucket, MAX_BUCKET_SIZE,
};
use crate::dht::routing::node::{lemma_node_id_len, node_status, now_millis, remote_requested, requested, same_node, status_rank, Node, NodeId, NodeStatus, NodeView, NODE_ID_LEN};

verus! {

/// Number of buckets in a full routing table: one per bit of a node id.
pub const MAX_BUCKETS: usize = 160;

/// Bit `k` of `s`, most significant bit of the first byte first.
pub open spec fn bit(s: Seq<u8>, k: int) -> u8 {
    (s[k / 8] >> ((7 - k % 8) as u8)) & 1u8
}

/// Number of leading bits, from bit `k` on, that `a` and `b` have in common (counting the
/// first `k` bits as common).
pub open spec fn common_prefix(a: Seq<u8>, b: Seq<u8>, k: int) -> int
    decreases 160 - k,
{
    if k >= 160 {
        160
    } else if bit(a, k) != bit(b, k) {
        k
    } else {
        common_prefix(a, b, k + 1)
    }
}

/// Number of leading bits that two node ids have in common.
pub open spec fn shared_bits(a: Seq<u8>, b: Seq<u8>) -> int {
    common_prefix(a, b, 0)
}

/// A common prefix counts at least the bits it started from, and at most all of them.
proof fn lemma_common_prefix_range(a: Seq<u8>, b: Seq<u8>, k: int)
    requires
        0 <= k <= 160,
    ensures
        k <= common_prefix(a, b, k) <= 160,
    decreases 160 - k,
{
    if k < 160 && bit(a, k) == bit(b, k) {
        lemma_common_prefix_range(a, b, k + 1);
    }
}

/// A node id whose bytes are drawn at random.
pub fn random_node_id() -> (r: NodeId) {
    let mut id: NodeId = [0u8; 20];
    let mut i: usize = 0;
    while i < NODE_ID_LEN
        invariant
            i <= NODE_ID_LEN,
        decreases NODE_ID_LEN - i,
    {
        id[i] = crate::dht::random::random_u8();
        i = i + 1;
    }
    id
}

/// Number of leading bits that the ids of the local and the remote node have in common.
pub fn leading_bit_count(local_node: &NodeId, remote_node: &NodeId) -> (r: usize)
    ensures
        r == shared_bits(local_node@, remote_node@),
        r <= MAX_BUCKETS,
{
    let mut k: usize = 0;
    proof {
        lemma_common_prefix_range(local_node@, remote_node@, 0);
    }
    while k < 160
        invariant
            k <= 160,
            common_prefix(local_node@, remote_node@, k as int) == shared_bits(local_node@, remote_node@),
        decreases 160 - k,
    {
        let shift: u8 = (7 - k % 8) as u8;
        let x = (local_node[k / 8] >> shift) & 1u8;
        let y = (remote_node[k / 8] >> shift) & 1u8;
        if x != y {
            return k;
        }
        k = k + 1;
    }
    k
}

/// The id with bit `index` of `id` flipped.
pub open spec fn flip_bit(id: Seq<u8>, index: int) -> Seq<u8> {
    id.update(index / 8, id[index / 8] ^ (1u8 << ((7 - index % 8) as u8)))
}

/// The node id with bit `index` flipped: an id that shares exactly `index` leading bits
/// with `node_id`.
pub fn flip_id_bit_at_index(node_id: NodeId, index: usize) -> (r: NodeId)
    requires
        index < MAX_BUCKETS,
    ensures
        r@ == flip_bit(node_id@, index as int),
{
    let mut id_bytes = node_id;
    let byte_index = index / 8;
    let bit_index = index % 8;
    let actual_bit_index: u8 = (7 - bit_index) as u8;
    let flipped = id_bytes[byte_index] ^ (1u8 << actual_bit_index);
    id_bytes.set(byte_index, flipped);
    assert(id_bytes@ =~= flip_bit(node_id@, index as int));
    id_bytes
}

/// Bits that agree on a prefix and then differ make that prefix the common one.
proof fn lemma_common_prefix_exact(a: Seq<u8>, b: Seq<u8>, k: int, j: int)
    requires
        0 <= j <= k < 160,
        forall|i: int| j <= i < k ==> bit(a, i) == bit(b, i),
        bit(a, k) != bit(b, k),
    ensures
        common_prefix(a, b, j) == k,
    decreases k - j,
{
    if j < k {
        lemma_common_prefix_exact(a, b, k, j + 1);
    }
}

/// An id with bit `index` of our id flipped shares exactly `index` leading bits with ours,
/// so it falls in bucket `index`.
pub proof fn lemma_flip_shared_bits(id: Seq<u8>, index: int)
    requires
        id.len() == 20,
        0 <= index < MAX_BUCKETS,
    ensures
        shared_bits(id, flip_bit(id, index)) == index,
{
    let f = flip_bit(id, index);
    let bi = index / 8;
    let x = id[bi];
    let b = (7 - index % 8) as u8;
    assert forall|i: int| 0 <= i < index implies bit(id, i) == bit(f, i) by {
        if i / 8 != bi {
            assert(f[i / 8] == id[i / 8]);
        } else {
            let c = (7 - i % 8) as u8;
            assert(c != b);
            assert(((x ^ (1u8 << b)) >> c) & 1u8 == (x >> c) & 1u8) by (bit_vector)
                requires
                    b < 8,
                    c < 8,
                    b != c,
            ;
        }
    }
    assert(((x ^ (1u8 << b)) >> b) & 1u8 != (x >> b) & 1u8) by (bit_vector)
        requires
            b < 8,
    ;
    lemma_common_prefix_exact(id, f, index, 0);
}

/// Index of the bucket that a node sharing `num_same_bits` leading bits with us goes in,
/// when there are `num_buckets` buckets: its own bucket if it exists yet, else the last one.
pub fn bucket_placement(num_same_bits: usize, num_buckets: usize) -> (r: usize)
    requires
        num_buckets >= 1,
    ensures
        r == (if num_same_bits >= num_buckets {
            num_buckets - 1
        } else {
            num_same_bits as int
        }),
{
    if num_same_bits >= num_buckets {
        num_buckets - 1
    } else {
        num_same_bits
    }
}

/// Whether the bucket at `bucket_index` can be split: it is the last one and not the last
/// possible one.
pub fn can_split_bucket(num_buckets: usize, bucket_index: usize) -> (r: bool)
    requires
        num_buckets >= 1,
    ensures
        r == (bucket_index == num_buckets - 1 && bucket_index != MAX_BUCKETS - 1),
{
    bucket_index == num_buckets - 1 && bucket_index != MAX_BUCKETS - 1
}

/// Whether an index that did not overflow is below `length`.
pub fn index_is_in_bounds(length: usize, checked_index: Option<usize>) -> (r: bool)
    ensures
        r == (checked_index matches Some(i) && i < length),
{
    match checked_index {
        Some(index) => index < length,
        None => false,
    }
}

/// Whether `i` is an index below `n`.
pub open spec fn in_bounds(n: int, i: int) -> bool {
    0 <= i < n
}

/// The bucket to visit after `curr` when walking outwards from `start` among `n` buckets:
/// the same distance on the other side when that is to the left, else one further out;
/// `None` once every bucket has been visited.
pub open spec fn next_index(n: int, start: int, curr: int) -> Option<int> {
    if curr == start {
        if in_bounds(n, start + 1) {
            Some(start + 1)
        } else if in_bounds(n, start - 1) {
            Some(start - 1)
        } else {
            None
        }
    } else if curr > start {
        if in_bounds(n, start - (curr - start)) {
            Some(start - (curr - start))
        } else if in_bounds(n, curr + 1) {
            Some(curr + 1)
        } else {
            None
        }
    } else {
        if in_bounds(n, start + (start - curr) + 1) {
            Some(start + (start - curr) + 1)
        } else if in_bounds(n, curr - 1) {
            Some(curr - 1)
        } else {
            None
        }
    }
}

/// The next bucket index to visit (see `next_index`).
pub fn next_bucket_index(num_buckets: usize, start_index: usize, curr_index: usize) -> (r: Option<usize>)
    requires
        curr_index < start_index ==> start_index - curr_index < usize::MAX,
    ensures
        r == (match next_index(num_buckets as int, start_index as int, curr_index as int) {
            Some(i) => Some(i as usize),
            None => None,
        }),
{
    if curr_index == start_index {
        let right_index = start_index.checked_add(1);
        let left_index = start_index.checked_sub(1);
        if index_is_in_bounds(num_buckets, right_index) {
            right_index
        } else if index_is_in_bounds(num_buckets, left_index) {
            left_index
        } else {
            None
        }
    } else if curr_index > start_index {
        let offset = curr_index - start_index;
        let left_index = start_index.checked_sub(offset);
        let right_index = curr_index.checked_add(1);
        if index_is_in_bounds(num_buckets, left_index) {
            left_index
        } else if index_is_in_bounds(num_buckets, right_index) {
            right_index
        } else {
            None
        }
    } else {
        let offset = (start_index - curr_index) + 1;
        let right_index = start_index.checked_add(offset);
        let left_index = curr_index.checked_sub(1);
        if index_is_in_bounds(num_buckets, right_index) {
            right_index
        } else if index_is_in_bounds(num_buckets, left_index) {
            left_index
        } else {
            None
        }
    }
}

/// The model of a routing table: our id and the nodes of each bucket.
pub struct TableView {
    /// Our node id.
    pub node_id: Seq<u8>,
    /// The nodes of each bucket, in bucket order.
    pub buckets: Seq<Seq<NodeView>>,
}

/// Every node that has ever answered sits where it belongs: in the bucket for the number of
/// leading bits its id shares with ours, or in the last bucket when that one does not exist
/// yet; and none has our own id.
pub open spec fn well_placed(t: TableView) -> bool {
    forall|i: int, j: int|
        0 <= i < t.buckets.len() && 0 <= j < t.buckets[i].len() && (#[trigger] t.buckets[i][j]).last_response
            is Some ==> {
            let k = shared_bits(t.node_id, t.buckets[i][j].id);
            &&& k < MAX_BUCKETS
            &&& i < t.buckets.len() - 1 ==> k == i
            &&& i == t.buckets.len() - 1 ==> k >= i
        }
}

/// What a bucket holds, as listed by `RoutingTable::buckets`.
pub enum BucketContents<'a> {
    /// A bucket that does not exist yet.
    Empty,
    /// A bucket holding the nodes that share exactly its index in leading bits with us.
    Sorted(&'a Bucket),
    /// The last bucket, holding nodes whose own bucket does not exist yet.
    Assorted(&'a Bucket),
}

impl<'a> BucketContents<'a> {
    /// Whether this is a bucket that does not exist yet.
    pub fn is_empty(&self) -> (r: bool)
        ensures
            r == (self is Empty),
    {
        match self {
            BucketContents::Empty => true,
            _ => false,
        }
    }

    /// Whether this is a sorted bucket.
    pub fn is_sorted(&self) -> (r: bool)
        ensures
            r == (self is Sorted),
    {
        match self {
            BucketContents::Sorted(_) => true,
            _ => false,
        }
    }

    /// Whether this is the assorted bucket.
    pub fn is_assorted(&self) -> (r: bool)
        ensures
            r == (self is Assorted),
    {
        match self {
            BucketContents::Assorted(_) => true,
            _ => false,
        }
    }
}

/// The bucket, among `len`, for a node that shares `k` leading bits with our id.
pub open spec fn placement(k: int, len: int) -> int {
    if k >= len {
        len - 1
    } else {
        k
    }
}

/// Whether bucket `i` of `len` buckets can be split: it is the last one, and not the last
/// possible one.
pub open spec fn splittable(len: int, i: int) -> bool {
    i == len - 1 && i != MAX_BUCKETS - 1
}

/// The nodes of a new bucket: bad placeholders.
pub open spec fn fresh_bucket() -> Seq<NodeView> {
    Seq::new(MAX_BUCKET_SIZE as nat, |i: int| placeholder())
}

/// Table `t` with its last bucket replaced by two new ones.
pub open spec fn split_shell(t: TableView) -> TableView {
    TableView { node_id: t.node_id, buckets: t.buckets.drop_last().push(fresh_bucket()).push(fresh_bucket()) }
}

/// Splits still possible for a table of at least `floor` buckets.
pub open spec fn splits_left(floor: int) -> int {
    if floor > MAX_BUCKETS {
        0
    } else {
        MAX_BUCKETS + 1 - floor
    }
}

/// Table `t`, of at least `floor` buckets, after adding `n` at time `now`: a bad node, or
/// one with our own id, is not added; any other goes to its bucket (see `bucket_node_spec`).
pub open spec fn table_add(t: TableView, n: NodeView, now: int, floor: int) -> TableView
    decreases splits_left(floor), 2int, 0int,
{
    if floor > MAX_BUCKETS || node_status(n, now) == NodeStatus::Bad || shared_bits(t.node_id, n.id) == MAX_BUCKETS {
        t
    } else {
        bucket_node_spec(t, n, shared_bits(t.node_id, n.id), now, floor)
    }
}

/// Table `t`, of at least `floor` buckets, after placing `n`, which shares `k` leading bits
/// with our id, at time `now`: it goes to its bucket if there is room (see `bucket_add`);
/// if not, and that bucket is the last one and can be split, the bucket is split and the
/// node placed again.
pub open spec fn bucket_node_spec(t: TableView, n: NodeView, k: int, now: int, floor: int) -> TableView
    decreases splits_left(floor), 1int, 0int,
{
    if floor > MAX_BUCKETS || t.buckets.len() == 0 {
        t
    } else {
        let idx = placement(k, t.buckets.len() as int);
        let (added, b) = bucket_add_result(t.buckets[idx], n, now);
        let t1 = TableView { node_id: t.node_id, buckets: t.buckets.update(idx, b) };
        if !added && splittable(t.buckets.len() as int, idx) {
            let t2 = split_spec(t1, now, floor);
            let f2 = if t2.buckets.len() > floor + 1 {
                t2.buckets.len() as int
            } else {
                floor + 1
            };
            bucket_node_spec(t2, n, k, now, f2)
        } else {
            t1
        }
    }
}

/// Table `t`, of at least `floor` buckets, after splitting its last bucket at time `now`: two
/// new buckets take its place, and its nodes are added again, in order.
pub open spec fn split_spec(t: TableView, now: int, floor: int) -> TableView
    decreases splits_left(floor), 0int, 0int,
{
    if floor > MAX_BUCKETS || t.buckets.len() == 0 {
        t
    } else {
        add_all(split_shell(t), t.buckets.last(), now, floor + 1)
    }
}

/// Table `t`, of at least `floor` buckets, after adding each of `ns` in order at time `now`.
pub open spec fn add_all(t: TableView, ns: Seq<NodeView>, now: int, floor: int) -> TableView
    decreases splits_left(floor), 3int, ns.len() as int,
{
    if ns.len() == 0 {
        t
    } else {
        let t0 = add_all(t, ns.drop_last(), now, floor);
        let f = if t0.buckets.len() > floor {
            t0.buckets.len() as int
        } else {
            floor
        };
        table_add(t0, ns.last(), now, f)
    }
}

/// Some position of `s` holds a good or questionable copy of `n`, so a first one does.
proof fn lemma_first_pingable_same_exists(s: Seq<NodeView>, n: NodeView, now: int, j: int)
    requires
        0 <= j < s.len(),
        is_pingable(node_status(s[j], now)) && same_node(s[j], n),
    ensures
        exists|i: int| first_pingable_same(s, i, n, now),
    decreases j,
{
    if exists|i: int| 0 <= i < j && is_pingable(node_status(s[i], now)) && same_node(s[i], n) {
        let i = choose|i: int| 0 <= i < j && is_pingable(node_status(s[i], now)) && same_node(s[i], n);
        lemma_first_pingable_same_exists(s, n, now, i);
    } else {
        assert(first_pingable_same(s, j, n, now));
    }
}

/// The listing of a table's buckets: for each of the `MAX_BUCKETS` indices the sorted
/// bucket if it exists, else an empty one; then the assorted last bucket, unless every bucket
/// exists. `None` stands for `Empty`, `Some((b, true))` for the sorted bucket `b`, and
/// `Some((b, false))` for the assorted bucket `b`.
pub open spec fn bucket_listing(buckets: Seq<Seq<NodeView>>, i: int) -> Option<(Seq<NodeView>, bool)> {
    let len = buckets.len();
    if i < MAX_BUCKETS {
        if i + 1 < len || len == MAX_BUCKETS {
            Some((buckets[i], true))
        } else {
            None
        }
    } else {
        Some((buckets[len - 1], false))
    }
}

/// Number of entries in the listing of a table with `len` buckets.
pub open spec fn listing_len(len: int) -> int {
    if len == MAX_BUCKETS {
        MAX_BUCKETS as int
    } else {
        MAX_BUCKETS + 1
    }
}

/// The model of a listed bucket.
pub open spec fn contents_view(c: BucketContents) -> Option<(Seq<NodeView>, bool)> {
    match c {
        BucketContents::Empty => None,
        BucketContents::Sorted(b) => Some((b@, true)),
        BucketContents::Assorted(b) => Some((b@, false)),
    }
}

/// `i` is the first position of `s` with a good or questionable node at time `now` that is
/// the same node as `n`.
pub open spec fn first_pingable_same(s: Seq<NodeView>, i: int, n: NodeView, now: int) -> bool {
    &&& 0 <= i < s.len()
    &&& is_pingable(node_status(s[i], now)) && same_node(s[i], n)
    &&& forall|j: int| 0 <= j < i ==> !(is_pingable(node_status(#[trigger] s[j], now)) && same_node(s[j], n))
}

/// `m` is a good or questionable node at time `now` and the same node as `n`.
pub open spec fn pingable_same(m: NodeView, n: NodeView, now: int) -> bool {
    is_pingable(node_status(m, now)) && same_node(m, n)
}

/// Position `i` of bucket `b` holds the first good or questionable copy of `n` at time `now`,
/// bucket by bucket.
pub open spec fn first_copy_at(t: TableView, n: NodeView, now: int, b: int, i: int) -> bool {
    &&& 0 <= b < t.buckets.len()
    &&& 0 <= i < t.buckets[b].len()
    &&& pingable_same(t.buckets[b][i], n, now)
    &&& forall|c: int, j: int|
        0 <= c < b && 0 <= j < t.buckets[c].len() ==> !pingable_same(#[trigger] t.buckets[c][j], n, now)
    &&& forall|j: int| 0 <= j < i ==> !pingable_same(#[trigger] t.buckets[b][j], n, now)
}

/// Table `t` after recording at time `now` that we sent `n` a request: its first good or
/// questionable copy counts the request; with no such copy nothing changes.
pub open spec fn record_request(t: TableView, n: NodeView, now: int) -> TableView {
    if exists|b: int, i: int| first_copy_at(t, n, now, b, i) {
        let (b, i) = choose|b: int, i: int| first_copy_at(t, n, now, b, i);
        TableView {
            node_id: t.node_id,
            buckets: t.buckets.update(b, t.buckets[b].update(i, requested(t.buckets[b][i], now))),
        }
    } else {
        t
    }
}

/// Table `t` after recording at time `now` a request to each of `ns`, in order.
pub open spec fn record_requests(t: TableView, ns: Seq<NodeView>, now: int) -> TableView
    decreases ns.len(),
{
    if ns.len() == 0 {
        t
    } else {
        record_request(record_requests(t, ns.drop_last(), now), ns.last(), now)
    }
}

/// There is only one first copy.
pub proof fn lemma_first_copy_unique(t: TableView, n: NodeView, now: int, b: int, i: int, c: int, j: int)
    requires
        first_copy_at(t, n, now, b, i),
        first_copy_at(t, n, now, c, j),
    ensures
        b == c && i == j,
{
    if b < c {
        assert(!pingable_same(t.buckets[b][i], n, now));
    } else if c < b {
        assert(!pingable_same(t.buckets[c][j], n, now));
    } else if i < j {
        assert(!pingable_same(t.buckets[b][i], n, now));
    } else if j < i {
        assert(!pingable_same(t.buckets[c][j], n, now));
    }
}

/// The bucket listed at the index of the shared prefix of `n` with our id: `None` where none
/// is listed or the entry is empty.
pub open spec fn listed_bucket(t: TableView, n: NodeView) -> Option<Seq<NodeView>> {
    let k = shared_bits(t.node_id, n.id);
    if k < listing_len(t.buckets.len() as int) {
        match bucket_listing(t.buckets, k) {
            Some((s, _)) => Some(s),
            None => None,
        }
    } else {
        None
    }
}

/// `r` is what looking up `n` at time `now` finds: the first good or questionable copy of
/// `n` in the bucket listed for it, if any.
pub open spec fn found_in_table(t: TableView, n: NodeView, now: int, r: Option<NodeView>) -> bool {
    match listed_bucket(t, n) {
        None => r is None,
        Some(s) => match r {
            None => forall|i: int| !first_pingable_same(s, i, n, now),
            Some(m) => exists|i: int| first_pingable_same(s, i, n, now) && m == s[i],
        },
    }
}

/// The position of the bucket listed for `n` (see `listed_bucket`).
pub open spec fn listed_index(t: TableView, n: NodeView) -> Option<int> {
    let k = shared_bits(t.node_id, n.id);
    let len = t.buckets.len() as int;
    if k < MAX_BUCKETS && (k + 1 < len || len == MAX_BUCKETS) {
        Some(k)
    } else if k == MAX_BUCKETS && len < MAX_BUCKETS {
        Some(len - 1)
    } else {
        None
    }
}

/// Table `t` after recording that `n` sent us a request at time `now`: the node that looking
/// `n` up finds (see `found_in_table`) has its request time set; with no such node nothing
/// changes.
pub open spec fn record_remote_request(t: TableView, n: NodeView, now: int) -> TableView {
    match listed_index(t, n) {
        None => t,
        Some(b) => if exists|i: int| first_pingable_same(t.buckets[b], i, n, now) {
            let i = choose|i: int| first_pingable_same(t.buckets[b], i, n, now);
            TableView {
                node_id: t.node_id,
                buckets: t.buckets.update(b, t.buckets[b].update(i, remote_requested(t.buckets[b][i], now))),
            }
        } else {
            t
        },
    }
}

/// There is only one first good or questionable copy in a bucket.
proof fn lemma_first_pingable_unique(s: Seq<NodeView>, n: NodeView, now: int, i: int, j: int)
    requires
        first_pingable_same(s, i, n, now),
        first_pingable_same(s, j, n, now),
    ensures
        i == j,
{
    if i < j {
        assert(!(is_pingable(node_status(s[i], now)) && same_node(s[i], n)));
    } else if j < i {
        assert(!(is_pingable(node_status(s[j], now)) && same_node(s[j], n)));
    }
}

/// Whether a node is good or questionable at time `now` and shares exactly `idx` leading
/// bits with `id`.
pub open spec fn pingable_with_prefix(id: Seq<u8>, idx: int, now: int) -> spec_fn(NodeView) -> bool {
    |n: NodeView| is_pingable(node_status(n, now)) && shared_bits(id, n.id) == idx
}

/// The nodes handed out for bucket index `idx` when listing closest nodes at time `now`: the
/// good and questionable nodes of the sorted bucket `idx` if it exists, then those of the
/// assorted last bucket whose own bucket would be `idx`.
pub open spec fn nodes_at_index(t: TableView, idx: int, now: int) -> Seq<NodeView> {
    let len = t.buckets.len() as int;
    let num_sorted = if len == MAX_BUCKETS {
        len
    } else {
        len - 1
    };
    let sorted = if 0 <= idx < num_sorted {
        crate::dht::routing::bucket::pingable_in(t.buckets[idx], now)
    } else {
        Seq::empty()
    };
    let assorted = if len < MAX_BUCKETS {
        t.buckets[len - 1].filter(pingable_with_prefix(t.node_id, idx, now))
    } else {
        Seq::empty()
    };
    sorted + assorted
}

/// How far along the walk outwards from `start` the index `cur` comes: one step right, one
/// step left, two steps right, and so on.
pub open spec fn visit_rank(start: int, cur: int) -> int {
    if cur > start {
        2 * (cur - start) - 1
    } else {
        2 * (start - cur)
    }
}

/// The nodes handed out when listing closest nodes at time `now`, from bucket index `cur`
/// on, walking outwards from `start` (see `next_index`).
pub open spec fn closest_from(t: TableView, start: int, cur: int, now: int) -> Seq<NodeView>
    decreases 400 - visit_rank(start, cur),
{
    if !(0 <= start <= MAX_BUCKETS && 0 <= cur <= MAX_BUCKETS) {
        Seq::empty()
    } else {
        nodes_at_index(t, cur, now) + match next_index(MAX_BUCKETS as int, start, cur) {
            Some(n) => if visit_rank(start, n) > visit_rank(start, cur) && visit_rank(start, n) <= 400 {
                closest_from(t, start, n, now)
            } else {
                Seq::empty()
            },
            None => Seq::empty(),
        }
    }
}

/// Walking outwards from `start` with `next_index` visits the buckets in order of
/// `visit_rank`: one step right, one step left, two steps right, and so on, skipping the
/// indices past either end. From a bucket `curr`, the next one visited is the bucket with the
/// smallest rank above the rank of `curr`, and the walk ends once no bucket has a higher rank.
/// The walk starts at rank zero and ranks tell buckets apart, so every bucket is visited once,
/// the one `d` steps right before the one `d` steps left.
pub proof fn lemma_walk_order(n: int, start: int, curr: int)
    requires
        0 <= start < n,
        0 <= curr < n,
    ensures
        match next_index(n, start, curr) {
            Some(d) => 0 <= d < n && visit_rank(start, d) > visit_rank(start, curr) && forall|e: int|
                0 <= e < n && visit_rank(start, curr) < #[trigger] visit_rank(start, e) ==> visit_rank(start, d)
                    <= visit_rank(start, e),
            None => forall|e: int| 0 <= e < n ==> #[trigger] visit_rank(start, e) <= visit_rank(start, curr),
        },
        visit_rank(start, start) == 0,
        forall|e: int| visit_rank(start, e) >= 0,
        forall|e: int, f: int| #[trigger] visit_rank(start, e) == #[trigger] visit_rank(start, f) ==> e == f,
        forall|e: int, f: int|
            e > start && start - f == e - start ==> #[trigger] visit_rank(start, e) + 1 == #[trigger] visit_rank(start, f),
{
}

/// The bucket visited at step `k` of the walk outwards from `start` among `n` buckets (see
/// `next_index`): `start` at step 0; `None` once the walk has ended.
pub open spec fn walk_at(n: int, start: int, k: nat) -> Option<int>
    decreases k,
{
    if k == 0 {
        Some(start)
    } else {
        match walk_at(n, start, (k - 1) as nat) {
            Some(c) => next_index(n, start, c),
            None => None,
        }
    }
}

/// What step `k` of the walk visits is a bucket whose rank is at least `k` and above those
/// of all earlier steps, and every bucket of no higher rank has been visited by then; once
/// the walk has ended, every bucket has been visited.
#[verifier::rlimit(100)]
#[verifier::spinoff_prover]
proof fn lemma_walk_step(n: int, start: int, k: nat)
    requires
        0 <= start < n,
    ensures
        walk_at(n, start, k) matches Some(c) ==> {
            &&& 0 <= c < n
            &&& visit_rank(start, c) >= k
            &&& forall|j: nat| j < k ==> ((#[trigger] walk_at(n, start, j)) matches Some(d) && visit_rank(start, d) < visit_rank(start, c))
            &&& forall|e: int| 0 <= e < n && visit_rank(start, e) <= visit_rank(start, c) ==> exists|j: nat| j <= k && #[trigger] walk_at(n, start, j) == Some(e)
        },
        walk_at(n, start, k) is None ==> forall|e: int| #[trigger] in_bounds(n, e) ==> exists|j: nat| j < k && #[trigger] walk_at(n, start, j) == Some(e),
    decreases k,
{
    lemma_walk_order(n, start, start);
    if k == 0 {
        assert forall|e: int| 0 <= e < n && visit_rank(start, e) <= visit_rank(start, start) implies exists|j: nat|
            j <= k && #[trigger] walk_at(n, start, j) == Some(e) by {
            assert(visit_rank(start, e) == visit_rank(start, start));
            assert(walk_at(n, start, 0) == Some(e));
        }
    } else {
        let km = (k - 1) as nat;
        lemma_walk_step(n, start, km);
        match walk_at(n, start, km) {
            None => {
                assert(walk_at(n, start, k) is None);
                assert forall|e: int| #[trigger] in_bounds(n, e) implies exists|j: nat| j < k && #[trigger] walk_at(n, start, j) == Some(e) by {
                    let j = choose|j: nat| j < km && #[trigger] walk_at(n, start, j) == Some(e);
                    assert(walk_at(n, start, j) == Some(e));
                }
            },
            Some(c) => {
                lemma_walk_order(n, start, c);
                match next_index(n, start, c) {
                    Some(d) => {
                        assert(walk_at(n, start, k) == Some(d));
                        assert forall|j: nat| j < k implies (#[trigger] walk_at(n, start, j)) matches Some(x) && visit_rank(start, x)
                            < visit_rank(start, d) by {
                            if j < km {
                                assert(walk_at(n, start, j) matches Some(x) && visit_rank(start, x) < visit_rank(start, c));
                            }
                        }
                        assert forall|e: int| 0 <= e < n && visit_rank(start, e) <= visit_rank(start, d) implies exists|j: nat|
                            j <= k && #[trigger] walk_at(n, start, j) == Some(e) by {
                            if visit_rank(start, e) <= visit_rank(start, c) {
                                let j = choose|j: nat| j <= km && #[trigger] walk_at(n, start, j) == Some(e);
                                assert(walk_at(n, start, j) == Some(e));
                            } else {
                                assert(visit_rank(start, d) <= visit_rank(start, e));
                                assert(visit_rank(start, e) == visit_rank(start, d));
                                assert(walk_at(n, start, k) == Some(e));
                            }
                        }
                    },
                    None => {
                        assert(walk_at(n, start, k) is None);
                        assert forall|e: int| #[trigger] in_bounds(n, e) implies exists|j: nat| j < k && #[trigger] walk_at(n, start, j) == Some(e) by {
                            assert(visit_rank(start, e) <= visit_rank(start, c));
                            let j = choose|j: nat| j <= km && #[trigger] walk_at(n, start, j) == Some(e);
                            assert(walk_at(n, start, j) == Some(e));
                        }
                    },
                }
            },
        }
    }
}

/// A walk that has ended by step `k` ended at some first step, before which it went on.
proof fn lemma_walk_first_end(n: int, start: int, k: nat) -> (end: nat)
    requires
        0 <= start < n,
        walk_at(n, start, k) is None,
    ensures
        end <= k,
        walk_at(n, start, end) is None,
        forall|j: nat| j < end ==> #[trigger] walk_at(n, start, j) is Some,
    decreases k,
{
    if k == 0 {
        k
    } else if walk_at(n, start, (k - 1) as nat) is None {
        lemma_walk_first_end(n, start, (k - 1) as nat)
    } else {
        lemma_walk_step(n, start, (k - 1) as nat);
        assert forall|j: nat| j < k implies #[trigger] walk_at(n, start, j) is Some by {
            if j < k - 1 {
                assert(walk_at(n, start, j) matches Some(_));
            }
        }
        k
    }
}

/// Walking outwards from `start` among `n` buckets visits every bucket exactly once, in `n`
/// steps, and then ends: steps `0..n` visit distinct buckets in range, every bucket is
/// visited by one of them, and at step `n` the walk has ended. No step is nearer to `start`
/// than an earlier one, and of two buckets at the same distance the one to the right of
/// `start` comes first.
pub proof fn lemma_walk_visits_all(n: int, start: int)
    requires
        0 <= start < n,
    ensures
        forall|k: nat| k < n ==> ((#[trigger] walk_at(n, start, k)) matches Some(c) && 0 <= c < n),
        forall|j: nat, k: nat|
            j < k < n ==> ((#[trigger] walk_at(n, start, j)) matches Some(a) && (#[trigger] walk_at(n, start, k)) matches Some(b)
                && a != b && visit_rank(start, a) < visit_rank(start, b)),
        walk_at(n, start, n as nat) is None,
        forall|e: int| #[trigger] in_bounds(n, e) ==> exists|k: nat| k < n && #[trigger] walk_at(n, start, k) == Some(e),
        forall|j: nat, k: nat|
            j < k < n ==> ((#[trigger] walk_at(n, start, j)) matches Some(a) && (#[trigger] walk_at(n, start, k)) matches Some(b)
                && (if a >= start { a - start } else { start - a }) <= (if b >= start { b - start } else { start - b })
                && ((if a >= start { a - start } else { start - a }) == (if b >= start { b - start } else { start - b }) ==> a > start && b < start)),
{
    let m = (2 * n + 1) as nat;
    lemma_walk_step(n, start, m);
    let end = lemma_walk_first_end(n, start, m);
    lemma_walk_step(n, start, end);
    lemma_walk_order(n, start, start);
    assert forall|k: nat| k < end implies (#[trigger] walk_at(n, start, k)) matches Some(c) && 0 <= c < n by {
        lemma_walk_step(n, start, k);
    }
    assert forall|j: nat, k: nat| j < k < end implies (#[trigger] walk_at(n, start, j)) matches Some(a) && (#[trigger] walk_at(
        n,
        start,
        k,
    )) matches Some(b) && a != b && visit_rank(start, a) < visit_rank(start, b) by {
        lemma_walk_step(n, start, k);
    }
    let s = Seq::new(end, |j: int| walk_at(n, start, j as nat)->0);
    assert(s.no_duplicates()) by {
        assert forall|i: int, j: int| 0 <= i < s.len() && 0 <= j < s.len() && i != j implies s[i] != s[j] by {
            if i < j {
                lemma_walk_step(n, start, j as nat);
                assert(walk_at(n, start, i as nat) matches Some(a) && visit_rank(start, a) < visit_rank(start, s[j]));
            } else {
                lemma_walk_step(n, start, i as nat);
                assert(walk_at(n, start, j as nat) matches Some(a) && visit_rank(start, a) < visit_rank(start, s[i]));
            }
        }
    }
    assert(s.to_set() =~= Set::<int>::range(0, n)) by {
        assert forall|e: int| s.to_set().contains(e) <==> 0 <= e < n by {
            if s.to_set().contains(e) {
                let i = choose|i: int| 0 <= i < s.len() && s[i] == e;
                assert(walk_at(n, start, i as nat) matches Some(c) && 0 <= c < n);
            }
            if 0 <= e < n {
                assert(in_bounds(n, e));
                let j = choose|j: nat| j < end && #[trigger] walk_at(n, start, j) == Some(e);
                assert(s[j as int] == e);
            }
        }
    }
    s.unique_seq_to_set();
    <int as vstd::set_lib::FiniteRange>::range_properties(0, n);
    assert(end == n);
}

/// The walk outwards only moves further away.
proof fn lemma_next_index_rank(start: int, cur: int)
    requires
        0 <= start <= MAX_BUCKETS,
        0 <= cur <= MAX_BUCKETS,
    ensures
        next_index(MAX_BUCKETS as int, start, cur) matches Some(n) ==> 0 <= n < MAX_BUCKETS && visit_rank(start, n)
            > visit_rank(start, cur) && visit_rank(start, n) <= 400,
{
}

/// The model of a node that may be missing.
pub open spec fn opt_node_view(r: Option<&Node>) -> Option<NodeView> {
    match r {
        Some(m) => Some(m@),
        None => None,
    }
}

/// The routing table: our node id and the buckets of the nodes we know.
pub struct RoutingTable {
    buckets: Vec<Bucket>,
    node_id: NodeId,
}

impl View for RoutingTable {
    type V = TableView;

    closed spec fn view(&self) -> TableView {
        TableView { node_id: self.node_id@, buckets: self.buckets@.map_values(|b: Bucket| b@) }
    }
}

impl RoutingTable {
    /// The table is consistent: between one and `MAX_BUCKETS` buckets of `MAX_BUCKET_SIZE`
    /// nodes each, every node where it belongs.
    pub closed spec fn wf(self) -> bool {
        &&& 1 <= self.buckets@.len() <= MAX_BUCKETS
        &&& forall|i: int| 0 <= i < self.buckets@.len() ==> (#[trigger] self.buckets@[i])@.len() == MAX_BUCKET_SIZE
        &&& forall|i: int, j: int|
            0 <= i < self.buckets@.len() && 0 <= j < self.buckets@[i]@.len() ==> (#[trigger] self.buckets@[i]@[j]).id.len()
                == NODE_ID_LEN || self.buckets@[i]@[j].last_response is None
        &&& well_placed(self@)
    }

    /// A table for our node id, with one bucket.
    pub fn new(node_id: NodeId) -> (t: RoutingTable)
        ensures
            t.wf(),
            t@.node_id == node_id@,
            t@.buckets == seq![Seq::new(MAX_BUCKET_SIZE as nat, |i: int| placeholder())],
    {
        let mut buckets: Vec<Bucket> = Vec::new();
        buckets.push(Bucket::new());
        let t = RoutingTable { buckets, node_id };
        assert(t@.buckets =~= seq![Seq::new(MAX_BUCKET_SIZE as nat, |i: int| placeholder())]);
        t
    }

    /// Our node id.
    pub fn node_id(&self) -> (r: NodeId)
        ensures
            r@ == self@.node_id,
    {
        self.node_id
    }

    /// The buckets: for each index the sorted bucket or an empty placeholder, then the
    /// assorted last bucket unless all buckets exist (see `bucket_listing`).
    pub fn buckets(&self) -> (r: Vec<BucketContents<'_>>)
        requires
            self.wf(),
        ensures
            r@.len() == listing_len(self@.buckets.len() as int),
            forall|i: int| 0 <= i < r@.len() ==> contents_view(#[trigger] r@[i]) == bucket_listing(self@.buckets, i),
    {
        let len = self.buckets.len();
        let mut out: Vec<BucketContents<'_>> = Vec::new();
        let mut i: usize = 0;
        while i < MAX_BUCKETS
            invariant
                len == self.buckets@.len(),
                1 <= len <= MAX_BUCKETS,
                i <= MAX_BUCKETS,
                out@.len() == i,
                forall|k: int| 0 <= k < i ==> contents_view(#[trigger] out@[k]) == bucket_listing(self@.buckets, k),
            decreases MAX_BUCKETS - i,
        {
            if i + 1 < len || len == MAX_BUCKETS {
                out.push(BucketContents::Sorted(&self.buckets[i]));
            } else {
                out.push(BucketContents::Empty);
            }
            i = i + 1;
        }
        if len != MAX_BUCKETS {
            out.push(BucketContents::Assorted(&self.buckets[len - 1]));
        }
        out
    }

    /// The node of the table that is the same node as `node` and is good or questionable at
    /// time `now`, looked for in the listed bucket for its shared prefix with our id.
    pub fn find_node_at(&self, node: &Node, now: i64) -> (r: Option<&Node>)
        requires
            self.wf(),
        ensures
            found_in_table(self@, node@, now as int, opt_node_view(r)),
    {
        let k = leading_bit_count(&self.node_id, &node.id());
        let len = self.buckets.len();
        let index: usize = if k < MAX_BUCKETS && (k + 1 < len || len == MAX_BUCKETS) {
            k
        } else if k == MAX_BUCKETS && len < MAX_BUCKETS {
            len - 1
        } else {
            return None;
        };
        let nodes = self.buckets[index].iter();
        let ghost s = self@.buckets[index as int];
        assert(bucket_listing(self@.buckets, k as int) matches Some((b, _)) && b == s);
        assert(nodes_view(nodes@) == s);
        let mut i: usize = 0;
        while i < nodes.len()
            invariant
                nodes_view(nodes@) == s,
                i <= nodes@.len(),
                k == shared_bits(self@.node_id, node@.id),
                k < listing_len(self@.buckets.len() as int),
                bucket_listing(self@.buckets, k as int) matches Some((b, _)) && b == s,
                forall|j: int| 0 <= j < i ==> !(is_pingable(node_status(#[trigger] s[j], now as int)) && same_node(s[j], node@)),
            decreases nodes@.len() - i,
        {
            let st = nodes[i].status_at(now);
            if (st == NodeStatus::Good || st == NodeStatus::Questionable) && nodes[i].same_as(node) {
                assert(first_pingable_same(s, i as int, node@, now as int));
                assert(nodes@[i as int]@ == s[i as int]);
                assert(exists|j: int| first_pingable_same(s, j, node@, now as int) && nodes@[i as int]@ == s[j]);
                assert(found_in_table(self@, node@, now as int, Some(nodes@[i as int]@)));
                return Some(&nodes[i]);
            }
            i = i + 1;
        }
        assert forall|j: int| !first_pingable_same(s, j, node@, now as int) by {
            if 0 <= j < s.len() {
                assert(!(is_pingable(node_status(s[j], now as int)) && same_node(s[j], node@)));
            }
        }
        None
    }

    /// Records, at time `now`, that we sent a request to `node`: its first good or
    /// questionable copy in the table, bucket by bucket, counts the request.
    pub fn local_request_at(&mut self, node: &Node, now: i64)
        requires
            old(self).wf(),
        ensures
            final(self).wf(),
            final(self)@ == record_request(old(self)@, node@, now as int),
    {
        let ghost t = self@;
        let len = self.buckets.len();
        let mut b: usize = 0;
        while b < len
            invariant
                self.wf(),
                self@ == t,
                t == old(self)@,
                len == self.buckets@.len(),
                len == t.buckets.len(),
                b <= len,
                forall|c: int, j: int|
                    0 <= c < b && 0 <= j < t.buckets[c].len() ==> !pingable_same(#[trigger] t.buckets[c][j], node@, now as int),
            decreases len - b,
        {
            let nodes = self.buckets[b].iter();
            let ghost s = t.buckets[b as int];
            assert(nodes_view(nodes@) == s);
            let mut i: usize = 0;
            while i < nodes.len()
                invariant
                    self.wf(),
                    self@ == t,
                    t == old(self)@,
                    len == self.buckets@.len(),
                    len == t.buckets.len(),
                    b < len,
                    forall|c: int, j: int|
                        0 <= c < b && 0 <= j < t.buckets[c].len() ==> !pingable_same(#[trigger] t.buckets[c][j], node@, now as int),
                    nodes_view(nodes@) == s,
                    s == t.buckets[b as int],
                    i <= nodes@.len(),
                    forall|j: int| 0 <= j < i ==> !pingable_same(#[trigger] s[j], node@, now as int),
                decreases nodes@.len() - i,
            {
                let st = nodes[i].status_at(now);
                if (st == NodeStatus::Good || st == NodeStatus::Questionable) && nodes[i].same_as(node) {
                    assert(nodes@[i as int]@ == s[i as int]);
                    assert(first_copy_at(t, node@, now as int, b as int, i as int));
                    let ghost old_buckets = self.buckets@;
                    let mut bucket = self.buckets.remove(b);
                    bucket.local_request_at_index(i, now);
                    self.buckets.insert(b, bucket);
                    assert(self.buckets@ =~= old_buckets.update(b as int, bucket));
                    let ghost t2 = TableView {
                        node_id: t.node_id,
                        buckets: t.buckets.update(
                            b as int,
                            t.buckets[b as int].update(i as int, requested(t.buckets[b as int][i as int], now as int)),
                        ),
                    };
                    assert(self@.buckets =~= t2.buckets);
                    assert(self@ == t2);
                    assert(well_placed(self@)) by {
                        assert forall|c: int, j: int|
                            0 <= c < t2.buckets.len() && 0 <= j < t2.buckets[c].len() && (
                            #[trigger] t2.buckets[c][j]).last_response is Some implies {
                            let k = shared_bits(t2.node_id, t2.buckets[c][j].id);
                            &&& k < MAX_BUCKETS
                            &&& c < t2.buckets.len() - 1 ==> k == c
                            &&& c == t2.buckets.len() - 1 ==> k >= c
                        } by {
                            assert(t2.buckets[c][j].last_response == t.buckets[c][j].last_response);
                            assert(t2.buckets[c][j].id == t.buckets[c][j].id);
                        }
                    }
                    assert forall|c: int| 0 <= c < self.buckets@.len() implies (#[trigger] self.buckets@[c])@.len()
                        == MAX_BUCKET_SIZE by {
                        assert(self.buckets@[c]@ == t2.buckets[c]);
                    }
                    assert forall|c: int, j: int|
                        0 <= c < self.buckets@.len() && 0 <= j < self.buckets@[c]@.len() implies (
                        #[trigger] self.buckets@[c]@[j]).id.len() == NODE_ID_LEN || self.buckets@[c]@[j].last_response
                        is None by {
                        assert(self.buckets@[c]@ == t2.buckets[c]);
                        assert(old_buckets[c]@ == t.buckets[c]);
                    }
                    proof {
                        let (cb, ci) = choose|cb: int, ci: int| first_copy_at(t, node@, now as int, cb, ci);
                        lemma_first_copy_unique(t, node@, now as int, b as int, i as int, cb, ci);
                    }
                    assert(self@ == record_request(t, node@, now as int));
                    return;
                }
                i = i + 1;
            }
            b = b + 1;
        }
        assert forall|c: int, j: int| !first_copy_at(t, node@, now as int, c, j) by {}
    }

    /// Records that `node` sent us a request at time `now`: the node that `find_node_at`
    /// finds for it has its request time set.
    pub fn remote_request_at(&mut self, node: &Node, now: i64)
        requires
            old(self).wf(),
        ensures
            final(self).wf(),
            final(self)@ == record_remote_request(old(self)@, node@, now as int),
    {
        let ghost t = self@;
        let k = leading_bit_count(&self.node_id, &node.id());
        let len = self.buckets.len();
        let b: usize = if k < MAX_BUCKETS && (k + 1 < len || len == MAX_BUCKETS) {
            k
        } else if k == MAX_BUCKETS && len < MAX_BUCKETS {
            len - 1
        } else {
            return;
        };
        assert(listed_index(t, node@) == Some(b as int));
        let nodes = self.buckets[b].iter();
        let ghost s = t.buckets[b as int];
        assert(nodes_view(nodes@) == s);
        let mut i: usize = 0;
        while i < nodes.len()
            invariant
                self.wf(),
                self@ == t,
                t == old(self)@,
                len == self.buckets@.len(),
                len == t.buckets.len(),
                b < len,
                listed_index(t, node@) == Some(b as int),
                nodes_view(nodes@) == s,
                s == t.buckets[b as int],
                i <= nodes@.len(),
                forall|j: int| 0 <= j < i ==> !pingable_same(#[trigger] s[j], node@, now as int),
            decreases nodes@.len() - i,
        {
            let st = nodes[i].status_at(now);
            if (st == NodeStatus::Good || st == NodeStatus::Questionable) && nodes[i].same_as(node) {
                assert(nodes@[i as int]@ == s[i as int]);
                assert(first_pingable_same(s, i as int, node@, now as int));
                let ghost old_buckets = self.buckets@;
                let mut bucket = self.buckets.remove(b);
                bucket.remote_request_at_index(i, now);
                self.buckets.insert(b, bucket);
                assert(self.buckets@ =~= old_buckets.update(b as int, bucket));
                let ghost t2 = TableView {
                    node_id: t.node_id,
                    buckets: t.buckets.update(
                        b as int,
                        t.buckets[b as int].update(i as int, remote_requested(t.buckets[b as int][i as int], now as int)),
                    ),
                };
                assert(self@.buckets =~= t2.buckets);
                assert(self@ == t2);
                assert(well_placed(self@)) by {
                    assert forall|c: int, j: int|
                        0 <= c < t2.buckets.len() && 0 <= j < t2.buckets[c].len() && (
                        #[trigger] t2.buckets[c][j]).last_response is Some implies {
                        let k = shared_bits(t2.node_id, t2.buckets[c][j].id);
                        &&& k < MAX_BUCKETS
                        &&& c < t2.buckets.len() - 1 ==> k == c
                        &&& c == t2.buckets.len() - 1 ==> k >= c
                    } by {
                        assert(t2.buckets[c][j].last_response == t.buckets[c][j].last_response);
                        assert(t2.buckets[c][j].id == t.buckets[c][j].id);
                    }
                }
                assert forall|c: int| 0 <= c < self.buckets@.len() implies (#[trigger] self.buckets@[c])@.len()
                    == MAX_BUCKET_SIZE by {
                    assert(self.buckets@[c]@ == t2.buckets[c]);
                }
                assert forall|c: int, j: int|
                    0 <= c < self.buckets@.len() && 0 <= j < self.buckets@[c]@.len() implies (
                    #[trigger] self.buckets@[c]@[j]).id.len() == NODE_ID_LEN || self.buckets@[c]@[j].last_response
                    is None by {
                    assert(self.buckets@[c]@ == t2.buckets[c]);
                    assert(old_buckets[c]@ == t.buckets[c]);
                }
                proof {
                    let ci = choose|ci: int| first_pingable_same(s, ci, node@, now as int);
                    lemma_first_pingable_unique(s, node@, now as int, i as int, ci);
                }
                assert(self@ == record_remote_request(t, node@, now as int));
                return;
            }
            i = i + 1;
        }
        assert forall|j: int| !first_pingable_same(s, j, node@, now as int) by {
            if 0 <= j < s.len() {
                assert(!pingable_same(s[j], node@, now as int));
            }
        }
    }

    /// Adds `node` at time `now` if it is not bad, does not have our id, and there is room
    /// for it in its bucket, splitting the last bucket as needed.
    pub fn add_node_at(&mut self, node: Node, now: i64)
        requires
            old(self).wf(),
        ensures
            final(self).wf(),
            final(self)@.node_id == old(self)@.node_id,
            old(self)@.buckets.len() <= final(self)@.buckets.len(),
            node_status(node@, now as int) == NodeStatus::Bad || shared_bits(old(self)@.node_id, node@.id)
                == MAX_BUCKETS ==> final(self)@ == old(self)@,
            final(self)@ == table_add(old(self)@, node@, now as int, old(self)@.buckets.len() as int),
        decreases MAX_BUCKETS - old(self)@.buckets.len(), 2int,
    {
        if node.status_at(now) == NodeStatus::Bad {
            return;
        }
        let num_same_bits = leading_bit_count(&self.node_id, &node.id());
        if num_same_bits != MAX_BUCKETS {
            self.bucket_node(node, num_same_bits, now);
        }
    }

    /// Places `node` in its bucket, splitting the last bucket while that makes room.
    fn bucket_node(&mut self, node: Node, num_same_bits: usize, now: i64)
        requires
            old(self).wf(),
            num_same_bits == shared_bits(old(self)@.node_id, node@.id),
            num_same_bits < MAX_BUCKETS,
            node_status(node@, now as int) != NodeStatus::Bad,
        ensures
            final(self).wf(),
            final(self)@.node_id == old(self)@.node_id,
            old(self)@.buckets.len() <= final(self)@.buckets.len(),
            final(self)@ == bucket_node_spec(
                old(self)@,
                node@,
                num_same_bits as int,
                now as int,
                old(self)@.buckets.len() as int,
            ),
        decreases MAX_BUCKETS - old(self)@.buckets.len(), 1int,
    {
        let index = bucket_placement(num_same_bits, self.buckets.len());
        let ghost before = self.buckets@;
        let added = self.buckets[index].add_node_at(node, now);
        proof {
            let s = before[index as int]@;
            let t = self.buckets@[index as int]@;
            lemma_bucket_add_shape(s, node@, now as int, added, t);
            lemma_node_id_len(node);
            assert(old(self)@.buckets == before.map_values(|b: Bucket| b@));
            assert(old(self)@.buckets[index as int] == s);
            assert(self.buckets@.len() == before.len());
            assert(self.buckets@ == before.update(index as int, self.buckets@[index as int]));
            assert forall|i: int| 0 <= i < self.buckets@.len() implies (#[trigger] self.buckets@[i])@.len()
                == MAX_BUCKET_SIZE by {
                if i != index {
                    assert(self.buckets@[i] == before[i]);
                }
            }
            assert forall|i: int, j: int|
                0 <= i < self.buckets@.len() && 0 <= j < self.buckets@[i]@.len() implies (
                #[trigger] self.buckets@[i]@[j]).id.len() == NODE_ID_LEN || self.buckets@[i]@[j].last_response
                is None by {
                if i != index {
                    assert(self.buckets@[i] == before[i]);
                } else {
                    assert(t[j] == s[j] || t[j] == node@);
                }
            }
            let tv = self@;
            assert forall|i: int, j: int|
                0 <= i < tv.buckets.len() && 0 <= j < tv.buckets[i].len() && (#[trigger] tv.buckets[i][j]).last_response
                    is Some implies {
                    let k = shared_bits(tv.node_id, tv.buckets[i][j].id);
                    &&& k < MAX_BUCKETS
                    &&& i < tv.buckets.len() - 1 ==> k == i
                    &&& i == tv.buckets.len() - 1 ==> k >= i
                } by {
                assert(tv.buckets.len() == old(self)@.buckets.len());
                if i != index {
                    assert(self.buckets@[i] == before[i]);
                    assert(tv.buckets[i] == before[i]@);
                    assert(old(self)@.buckets[i] == tv.buckets[i]);
                    assert(old(self)@.buckets[i][j] == tv.buckets[i][j]);
                } else {
                    assert(t[j] == s[j] || t[j] == node@);
                    assert(tv.buckets[i] == t);
                    assert(tv.buckets.len() == old(self)@.buckets.len());
                    if t[j] == s[j] {
                        assert(old(self)@.buckets[i][j] == s[j]);
                    } else {
                        assert(shared_bits(tv.node_id, t[j].id) == num_same_bits);
                    }
                }
            }
        }
        let ghost t1 = self@;
        proof {
            assert(t1.buckets =~= old(self)@.buckets.update(index as int, self.buckets@[index as int]@));
            assert((added, self.buckets@[index as int]@) == bucket_add_result(
                old(self)@.buckets[index as int],
                node@,
                now as int,
            ));
        }
        if !added {
            if self.split_bucket(index, now) {
                let ghost t2 = self@;
                self.bucket_node(node, num_same_bits, now);
                assert(t2.buckets.len() > old(self)@.buckets.len());
            }
        }
    }

    /// Splits the last bucket in two, unless it holds the nodes of the last possible index,
    /// and places its nodes again; returns whether it split.
    fn split_bucket(&mut self, bucket_index: usize, now: i64) -> (r: bool)
        requires
            old(self).wf(),
        ensures
            final(self).wf(),
            final(self)@.node_id == old(self)@.node_id,
            r ==> old(self)@.buckets.len() < final(self)@.buckets.len(),
            !r ==> final(self)@ == old(self)@,
            r == splittable(old(self)@.buckets.len() as int, bucket_index as int),
            r ==> final(self)@ == split_spec(old(self)@, now as int, old(self)@.buckets.len() as int),
        decreases MAX_BUCKETS - old(self)@.buckets.len(), 0int,
    {
        if !can_split_bucket(self.buckets.len(), bucket_index) {
            return false;
        }
        let ghost before = self.buckets@;
        let ghost old_len = before.len();
        let split = match self.buckets.pop() {
            Some(b) => b,
            None => {
                return false;
            },
        };
        self.buckets.push(Bucket::new());
        self.buckets.push(Bucket::new());
        proof {
            assert(self.buckets@.len() == old_len + 1);
            assert forall|i: int| 0 <= i < old_len - 1 implies #[trigger] self.buckets@[i] == before[i] by {}
            assert forall|i: int| 0 <= i < self.buckets@.len() implies (#[trigger] self.buckets@[i])@.len()
                == MAX_BUCKET_SIZE by {}
            assert forall|i: int, j: int|
                0 <= i < self.buckets@.len() && 0 <= j < self.buckets@[i]@.len() implies (
                #[trigger] self.buckets@[i]@[j]).id.len() == NODE_ID_LEN || self.buckets@[i]@[j].last_response
                is None by {
                if i >= old_len - 1 {
                    assert(self.buckets@[i]@[j] == placeholder());
                }
            }
            let tv = self@;
            assert forall|i: int, j: int|
                0 <= i < tv.buckets.len() && 0 <= j < tv.buckets[i].len() && (#[trigger] tv.buckets[i][j]).last_response
                    is Some implies {
                    let k = shared_bits(tv.node_id, tv.buckets[i][j].id);
                    &&& k < MAX_BUCKETS
                    &&& i < tv.buckets.len() - 1 ==> k == i
                    &&& i == tv.buckets.len() - 1 ==> k >= i
                } by {
                if i < old_len - 1 {
                    assert(tv.buckets[i] == before[i]@);
                    assert(before.map_values(|b: Bucket| b@)[i] == before[i]@);
                } else {
                    assert(tv.buckets[i] == self.buckets@[i]@);
                    assert(tv.buckets[i][j] == placeholder());
                }
            }
        }
        let nodes = split.iter();
        let ghost shell = split_shell(old(self)@);
        let ghost ns = nodes_view(nodes@);
        let ghost floor: int = old(self)@.buckets.len() as int + 1;
        proof {
            assert(old(self)@.buckets.last() == before[old_len - 1]@);
            assert(ns == old(self)@.buckets.last());
            assert(self@.buckets =~= shell.buckets);
            assert(ns.take(0) =~= Seq::<NodeView>::empty());
        }
        let mut i: usize = 0;
        while i < nodes.len()
            invariant
                self.wf(),
                self@.node_id == old(self)@.node_id,
                old(self)@.buckets.len() < self@.buckets.len(),
                i <= nodes@.len(),
                ns == nodes_view(nodes@),
                floor == old(self)@.buckets.len() + 1,
                self@ == add_all(shell, ns.take(i as int), now as int, floor),
            decreases nodes@.len() - i,
        {
            let ghost cur = self@;
            self.add_node_at(nodes[i], now);
            proof {
                assert(ns.take(i + 1).drop_last() =~= ns.take(i as int));
                assert(ns.take(i + 1).last() == nodes@[i as int]@);
            }
            i = i + 1;
        }
        proof {
            assert(ns.take(i as int) =~= ns);
        }
        true
    }

    /// The good and questionable nodes closest to `node_id` at time `now`: bucket by bucket,
    /// starting with the bucket for its shared prefix with our id, then walking outwards (see
    /// `closest_from`).
    pub fn closest_nodes_at(&self, node_id: &NodeId, now: i64) -> (r: Vec<Node>)
        requires
            self.wf(),
        ensures
            ({
                let start = shared_bits(self@.node_id, node_id@);
                nodes_view(r@) == closest_from(self@, start, start, now as int)
            }),
    {
        let start = leading_bit_count(&self.node_id, node_id);
        let ghost whole = closest_from(self@, start as int, start as int, now as int);
        let mut out: Vec<Node> = Vec::new();
        let mut cur = start;
        loop
            invariant_except_break
                nodes_view(out@) + closest_from(self@, start as int, cur as int, now as int) == whole,
            invariant
                self.wf(),
                start <= MAX_BUCKETS,
                cur <= MAX_BUCKETS,
                whole == closest_from(self@, start as int, start as int, now as int),
            ensures
                nodes_view(out@) == whole,
            decreases 400 - visit_rank(start as int, cur as int),
        {
            let ghost before = nodes_view(out@);
            self.push_nodes_at(cur, now, &mut out);
            proof {
                lemma_next_index_rank(start as int, cur as int);
            }
            match next_bucket_index(MAX_BUCKETS, start, cur) {
                Some(n) => {
                    assert(nodes_view(out@) + closest_from(self@, start as int, n as int, now as int) =~= before
                        + closest_from(self@, start as int, cur as int, now as int));
                    cur = n;
                },
                None => {
                    assert(nodes_view(out@) =~= before + closest_from(self@, start as int, cur as int, now as int));
                    break ;
                },
            }
        }
        out
    }

    /// Appends the nodes handed out for bucket index `idx` at time `now` (see `nodes_at_index`).
    fn push_nodes_at(&self, idx: usize, now: i64, out: &mut Vec<Node>)
        requires
            self.wf(),
        ensures
            nodes_view(final(out)@) == nodes_view(old(out)@)
                + nodes_at_index(self@, idx as int, now as int),
    {
        let ghost start = nodes_view(out@);
        let len = self.buckets.len();
        let num_sorted = if len == MAX_BUCKETS {
            len
        } else {
            len - 1
        };
        if idx < num_sorted {
            let sorted = self.buckets[idx].pingable_nodes_at(now);
            let mut i: usize = 0;
            while i < sorted.len()
                invariant
                    i <= sorted@.len(),
                    nodes_view(out@) == start + nodes_view(
                        sorted@.subrange(0, i as int),
                    ),
                decreases sorted@.len() - i,
            {
                proof {
                    lemma_nodes_view_push(out@, sorted@[i as int]);
                }
                out.push(sorted[i]);
                i = i + 1;
                assert(nodes_view(sorted@.subrange(0, i as int)) =~= nodes_view(
                    sorted@.subrange(0, i - 1),
                ).push(sorted@[i - 1]@));
                assert(nodes_view(out@) =~= start + nodes_view(
                    sorted@.subrange(0, i as int),
                ));
            }
            assert(sorted@.subrange(0, i as int) =~= sorted@);
        }
        let ghost mid = nodes_view(out@);
        if len < MAX_BUCKETS {
            let nodes = self.buckets[len - 1].iter();
            let ghost b = self@.buckets[len - 1];
            let ghost pred = pingable_with_prefix(self@.node_id, idx as int, now as int);
            let mut i: usize = 0;
            while i < nodes.len()
                invariant
                    nodes_view(nodes@) == b,
                    pred == pingable_with_prefix(self@.node_id, idx as int, now as int),
                    i <= nodes@.len(),
                    nodes_view(out@) == mid + b.subrange(0, i as int).filter(pred),
                decreases nodes@.len() - i,
            {
                let ghost sub = b.subrange(0, i as int);
                assert(b.subrange(0, i + 1) =~= sub.push(b[i as int]));
                proof {
                    sub.lemma_filter_push(b[i as int], pred);
                }
                let st = nodes[i].status_at(now);
                assert(nodes@[i as int]@ == b[i as int]);
                if (st == NodeStatus::Good || st == NodeStatus::Questionable) && leading_bit_count(
                    &self.node_id,
                    &nodes[i].id(),
                ) == idx {
                    proof {
                        lemma_nodes_view_push(out@, nodes@[i as int]);
                    }
                    out.push(nodes[i]);
                }
                i = i + 1;
                assert(nodes_view(out@) =~= mid + b.subrange(0, i as int).filter(pred));
            }
            assert(b.subrange(0, i as int) =~= b);
        }
        assert(nodes_view(out@) =~= start + nodes_at_index(self@, idx as int, now as int));
    }

    /// Adds `node` now if it is not bad, does not have our id, and there is room for it in
    /// its bucket, splitting the last bucket as needed.
    pub fn add_node(&mut self, node: Node)
        requires
            old(self).wf(),
        ensures
            final(self).wf(),
            final(self)@.node_id == old(self)@.node_id,
            old(self)@.buckets.len() <= final(self)@.buckets.len(),
            shared_bits(old(self)@.node_id, node@.id) == MAX_BUCKETS ==> final(self)@ == old(self)@,
            exists|now: i64|
                final(self)@ == #[trigger] table_add(old(self)@, node@, now as int, old(self)@.buckets.len() as int),
    {
        let now = now_millis();
        self.add_node_at(node, now);
        assert(self@ == table_add(old(self)@, node@, now as int, old(self)@.buckets.len() as int));
    }

    /// The node of the table that is the same node as `node` and is good or questionable
    /// now, looked for in the listed bucket for its shared prefix with our id.
    pub fn find_node(&self, node: &Node) -> (r: Option<&Node>)
        requires
            self.wf(),
        ensures
            exists|now: i64| #[trigger] found_in_table(self@, node@, now as int, opt_node_view(r)),
    {
        self.find_node_at(node, now_millis())
    }

    /// The good and questionable nodes closest to `node_id` now (see `closest_nodes_at`).
    pub fn closest_nodes(&self, node_id: &NodeId) -> (r: Vec<Node>)
        requires
            self.wf(),
        ensures
            exists|now: i64|
                nodes_view(r@) == #[trigger] closest_from(
                    self@,
                    shared_bits(self@.node_id, node_id@),
                    shared_bits(self@.node_id, node_id@),
                    now as int,
                ),
    {
        self.closest_nodes_at(node_id, now_millis())
    }
}


/// A node that is not bad, and for which its bucket has room, is found once added, when that
/// bucket is not the last one.
pub proof fn lemma_added_node_is_found(t: TableView, n: NodeView, now: int)
    requires
        1 <= t.buckets.len() <= MAX_BUCKETS,
        node_status(n, now) != NodeStatus::Bad,
        shared_bits(t.node_id, n.id) < t.buckets.len() - 1,
        bucket_add_result(t.buckets[shared_bits(t.node_id, n.id)], n, now).0,
    ensures
        exists|m: NodeView| same_node(m, n) && #[trigger] found_in_table(
            table_add(t, n, now, t.buckets.len() as int),
            n,
            now,
            Some(m),
        ),
{
    let k = shared_bits(t.node_id, n.id);
    lemma_common_prefix_range(t.node_id, n.id, 0);
    let s = t.buckets[k];
    let b = bucket_add_result(s, n, now).1;
    let t2 = table_add(t, n, now, t.buckets.len() as int);
    assert(t2 == TableView { node_id: t.node_id, buckets: t.buckets.update(k, b) });
    assert(t2.buckets[k] == b);
    assert(listed_bucket(t2, n) == Some(b));
    let st = node_status(n, now);
    if exists|i: int| first_same(s, i, n) {
        let i = choose|i: int| first_same(s, i, n);
        if status_rank(st) >= status_rank(node_status(s[i], now)) {
            assert(b[i] == n);
        } else {
            assert(b[i] == s[i]);
            assert(is_pingable(node_status(b[i], now)));
        }
        lemma_first_pingable_same_exists(b, n, now, i);
    } else {
        let i = choose|i: int| first_worse(s, i, n, now);
        assert(b[i] == n);
        lemma_first_pingable_same_exists(b, n, now, i);
    }
    let j = choose|j: int| first_pingable_same(b, j, n, now);
    assert(found_in_table(t2, n, now, Some(b[j])));
}

} // verus!
