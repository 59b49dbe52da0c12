//! Looking up the peers of an info hash: which nodes to ask, round by round, until the nodes
//! answering get no closer to the target; then an endgame asking every node not asked yet,
//! and finally announcing ourselves to the closest nodes that gave us a token.
use vstd::prelude::*;

use crate::bencode::order::{bytes_equal, lex_less};
use crate::bencode::spec::lex_lt;
use crate::bencode::spec::encode_value;
use crate::dht::message::announce_peer::{announce_request_value, AnnouncePeerRequest, AnnouncePeerRequestView, ResponsePort};
use crate::dht::routing::node::{Node, NodeAddr, NodeId, NodeView};
use crate::dht::routing::bucket::{good_at, good_in, nodes_view, MAX_BUCKET_SIZE};
use crate::dht::routing::node::NodeStatus;
use crate::dht::routing::table::{closest_from, record_requests, shared_bits, RoutingTable, TableView};
use crate::dht::transaction::{issue_next, issued, lemma_issued_append, lemma_issued_push, message_part, MIDGenerator, TransactionID};

verus! {

/// Number of nodes asked in the first round.
pub const INITIAL_PICK_NUM: usize = 4;

/// Number of nodes asked in each later round.
pub const ITERATIVE_PICK_NUM: usize = 3;

/// Number of nodes we announce ourselves to.
pub const ANNOUNCE_PICK_NUM: usize = 8;

/// The distance of `id` from `target`: their bitwise exclusive or.
pub open spec fn distance(target: Seq<u8>, id: Seq<u8>) -> Seq<u8> {
    Seq::new(20, |i: int| target[i] ^ id[i])
}

/// A node we may ask: its id and address.
pub type Contact = (NodeId, NodeAddr);

/// The model of a contact.
pub open spec fn contact_view(c: Contact) -> (Seq<u8>, NodeAddr) {
    (c.0@, c.1)
}

/// The models of contacts.
pub open spec fn contacts_view(cs: Seq<Contact>) -> Seq<(Seq<u8>, NodeAddr)> {
    cs.map_values(|c: Contact| contact_view(c))
}

/// The table's model of a contact, for finding it in the table.
pub open spec fn contact_node(c: (Seq<u8>, NodeAddr)) -> NodeView {
    NodeView { id: c.0, addr: c.1, last_request: None, last_response: None, refresh_requests: 0 }
}

/// The distance of `id` from `target` (see `distance`).
pub fn xor_distance(target: &NodeId, id: &NodeId) -> (d: [u8; 20])
    ensures
        d@ == distance(target@, id@),
{
    let mut d: [u8; 20] = [0u8; 20];
    let mut i: usize = 0;
    while i < 20
        invariant
            i <= 20,
            d@.len() == 20,
            forall|j: int| 0 <= j < i ==> d@[j] == target@[j] ^ id@[j],
        decreases 20 - i,
    {
        d.set(i, target[i] ^ id[i]);
        i = i + 1;
    }
    assert(d@ =~= distance(target@, id@));
    d
}

/// The first position from `k` on whose distance does not come before `d`, or the length.
pub open spec fn first_not_below(s: Seq<(Seq<u8>, (Seq<u8>, NodeAddr), bool)>, d: Seq<u8>, k: int) -> int
    decreases s.len() - k,
{
    if k < 0 || k >= s.len() {
        s.len() as int
    } else if !lex_lt(s[k].0, d) {
        k
    } else {
        first_not_below(s, d, k + 1)
    }
}

/// `s` after inserting the entry `e` before the first entry that is not closer: unless that
/// entry is at the same distance and the same node.
pub open spec fn insert_sorted(
    s: Seq<(Seq<u8>, (Seq<u8>, NodeAddr), bool)>,
    e: (Seq<u8>, (Seq<u8>, NodeAddr), bool),
) -> Seq<(Seq<u8>, (Seq<u8>, NodeAddr), bool)> {
    let k = first_not_below(s, e.0, 0);
    if k < s.len() && s[k].0 == e.0 && s[k].1 == e.1 {
        s
    } else {
        s.insert(k, e)
    }
}

/// The model of an entry of the sorted list: distance, contact, and whether it was asked.
pub open spec fn entry_view(e: ([u8; 20], Contact, bool)) -> (Seq<u8>, (Seq<u8>, NodeAddr), bool) {
    (e.0@, contact_view(e.1), e.2)
}

/// The models of the entries of the sorted list.
pub open spec fn entries_view(s: Seq<([u8; 20], Contact, bool)>) -> Seq<(Seq<u8>, (Seq<u8>, NodeAddr), bool)> {
    s.map_values(|e: ([u8; 20], Contact, bool)| entry_view(e))
}

/// Whether two contacts are the same node.
fn same_contact(a: &Contact, b: &Contact) -> (r: bool)
    ensures
        r == (contact_view(*a) == contact_view(*b)),
{
    crate::dht::routing::node::same_id(&a.0, &b.0) && crate::dht::routing::node::same_addr(&a.1, &b.1)
}

/// Inserts `contact` into the list sorted by distance from `target` (see `insert_sorted`).
fn insert_sorted_node(nodes: &mut Vec<([u8; 20], Contact, bool)>, target: &NodeId, contact: Contact, pinged: bool)
    ensures
        entries_view(final(nodes)@) == insert_sorted(
            entries_view(old(nodes)@),
            (distance(target@, contact.0@), contact_view(contact), pinged),
        ),
{
    let dist = xor_distance(target, &contact.0);
    let ghost s = entries_view(nodes@);
    let ghost e = (dist@, contact_view(contact), pinged);
    let mut i: usize = 0;
    while i < nodes.len() && lex_less(nodes[i].0.as_slice(), dist.as_slice())
        invariant
            s == entries_view(nodes@),
            nodes@ == old(nodes)@,
            i <= nodes@.len(),
            first_not_below(s, dist@, 0) == first_not_below(s, dist@, i as int),
        decreases nodes@.len() - i,
    {
        assert(s[i as int].0 == nodes@[i as int].0@);
        i = i + 1;
    }
    assert(first_not_below(s, dist@, i as int) == i) by {
        if i < nodes@.len() {
            assert(s[i as int].0 == nodes@[i as int].0@);
        }
    }
    if i < nodes.len() && same_contact(&nodes[i].1, &contact) && dist_eq(&nodes[i].0, &dist) {
        assert(s[i as int].0 == nodes@[i as int].0@);
        assert(s[i as int].1 == contact_view(nodes@[i as int].1));
        return;
    }
    proof {
        if i < nodes@.len() {
            assert(s[i as int].0 == nodes@[i as int].0@);
            assert(s[i as int].1 == contact_view(nodes@[i as int].1));
        }
    }
    nodes.insert(i, (dist, contact, pinged));
    assert(entries_view(nodes@) =~= s.insert(i as int, e));
}

/// Whether two distances are equal.
fn dist_eq(a: &[u8; 20], b: &[u8; 20]) -> (r: bool)
    ensures
        r == (a@ == b@),
{
    bytes_equal(a.as_slice(), b.as_slice())
}

/// Where a lookup stands.
#[derive(Debug, Clone)]
pub enum LookupStatus {
    /// Requests are outstanding, or the endgame runs.
    Searching,
    /// A node answered with the addresses of peers.
    Values(Vec<NodeAddr>),
    /// Nothing is outstanding.
    Completed,
    /// A request could not be sent.
    Failed,
}

/// A peers request to send: its transaction id and the contact to send it to.
#[derive(Debug, Clone, Copy)]
pub struct LookupRequest {
    /// The transaction id of the request.
    pub trans_id: TransactionID,
    /// The node asked.
    pub contact: Contact,
}

/// What a step of a lookup asks of its caller: the requests to send, the endgame to time out
/// if one started, and where the lookup stands.
#[derive(Debug, Clone)]
pub struct LookupStep {
    /// Peers requests to send, each to be timed out on its own.
    pub requests: Vec<LookupRequest>,
    /// The id under which the endgame that started is timed out.
    pub endgame: Option<TransactionID>,
    /// Where the lookup stands.
    pub status: LookupStatus,
}

/// The model of a lookup.
pub struct LookupView {
    /// Our node id.
    pub table_id: Seq<u8>,
    /// The info hash looked up.
    pub target_id: Seq<u8>,
    /// Whether the endgame runs.
    pub in_endgame: bool,
    /// Whether a node answered with peers alone.
    pub recv_values: bool,
    /// Whether we announce ourselves when the lookup ends.
    pub will_announce: bool,
    /// Outstanding requests: transaction id and the distance the answer must beat.
    pub active: Seq<(TransactionID, Seq<u8>)>,
    /// The announce tokens nodes gave us.
    pub tokens: Seq<((Seq<u8>, NodeAddr), Seq<u8>)>,
    /// The nodes asked.
    pub requested: Seq<(Seq<u8>, NodeAddr)>,
    /// The nodes heard of, closest first, with whether each was asked.
    pub sorted: Seq<(Seq<u8>, (Seq<u8>, NodeAddr), bool)>,
    /// The action of the lookup's transaction ids.
    pub action: u64,
    /// The message ids still to come before the id space wraps around.
    pub pending: Set<u64>,
}

/// The message parts of the transaction ids of requests, in order.
pub open spec fn request_ids(rs: Seq<LookupRequest>) -> Seq<u64> {
    rs.map_values(|r: LookupRequest| message_part(r.trans_id))
}

/// The status of a lookup with nothing to report: searching while the endgame runs or
/// requests are outstanding, else completed.
pub open spec fn current_status(v: LookupView) -> LookupStatus {
    if v.in_endgame || v.active.len() > 0 {
        LookupStatus::Searching
    } else {
        LookupStatus::Completed
    }
}

/// `r` with `c` added, unless it is there already.
pub open spec fn add_requested(r: Seq<(Seq<u8>, NodeAddr)>, c: (Seq<u8>, NodeAddr)) -> Seq<(Seq<u8>, NodeAddr)> {
    if r.contains(c) {
        r
    } else {
        r.push(c)
    }
}

/// `r` with each of `cs` added in turn (see `add_requested`).
pub open spec fn add_all_requested(r: Seq<(Seq<u8>, NodeAddr)>, cs: Seq<(Seq<u8>, NodeAddr)>) -> Seq<(Seq<u8>, NodeAddr)>
    decreases cs.len(),
{
    if cs.len() == 0 {
        r
    } else {
        add_requested(add_all_requested(r, cs.drop_last()), cs.last())
    }
}

/// The table's models of contacts.
pub open spec fn contact_nodes(cs: Seq<(Seq<u8>, NodeAddr)>) -> Seq<NodeView> {
    cs.map_values(|c: (Seq<u8>, NodeAddr)| contact_node(c))
}

/// The contacts of requests.
pub open spec fn request_contacts(rs: Seq<LookupRequest>) -> Seq<(Seq<u8>, NodeAddr)> {
    rs.map_values(|r: LookupRequest| contact_view(r.contact))
}

/// The outstanding requests after sending `rs`, where the answer to the `i`th must beat
/// `dists[i]`.
pub open spec fn new_active(rs: Seq<LookupRequest>, dists: Seq<Seq<u8>>) -> Seq<(TransactionID, Seq<u8>)> {
    Seq::new(rs.len(), |i: int| (rs[i].trans_id, dists[i]))
}

/// A request round: the lookup `b` sends a request to each of `cs` (the answer to the `i`th
/// to beat `dists[i]`), giving `a`, the requests `rs` and the table `t2` from `t`.
pub open spec fn round_spec(
    b: LookupView,
    cs: Seq<(Seq<u8>, NodeAddr)>,
    dists: Seq<Seq<u8>>,
    a: LookupView,
    rs: Seq<LookupRequest>,
    t: TableView,
    t2: TableView,
    now: int,
) -> bool {
    &&& request_contacts(rs) == cs
    &&& a.active == if cs.len() == 0 {
        Seq::empty()
    } else {
        b.active + new_active(rs, dists)
    }
    &&& a.requested == add_all_requested(b.requested, cs)
    &&& t2 == record_requests(t, contact_nodes(cs), now)
    &&& a.table_id == b.table_id && a.target_id == b.target_id && a.in_endgame == b.in_endgame
    &&& a.recv_values == b.recv_values && a.will_announce == b.will_announce
    &&& a.tokens == b.tokens && a.sorted == b.sorted
    &&& a.action == b.action
    &&& issued(b.pending, request_ids(rs)) == Some(a.pending)
}

/// An entry of the sorted list: distance, contact, and whether it was asked.
pub type EntryView = (Seq<u8>, (Seq<u8>, NodeAddr), bool);

/// Whether an entry was not asked yet.
pub open spec fn not_asked() -> spec_fn(EntryView) -> bool {
    |e: EntryView| !e.2
}

/// The contacts of entries.
pub open spec fn entry_contacts(s: Seq<EntryView>) -> Seq<(Seq<u8>, NodeAddr)> {
    s.map_values(|e: EntryView| e.1)
}

/// The distances of entries.
pub open spec fn entry_dists(s: Seq<EntryView>) -> Seq<Seq<u8>> {
    s.map_values(|e: EntryView| e.0)
}

/// The entries, all marked as asked.
pub open spec fn all_asked(s: Seq<EntryView>) -> Seq<EntryView> {
    s.map_values(|e: EntryView| (e.0, e.1, true))
}

/// The endgame starting: lookup `b` becomes `a`, the requests `rs` go out and the table `t`
/// becomes `t2`. Unless a node answered with peers alone, every node heard of and not asked
/// yet is asked now, closest first, and all are then marked asked. The endgame is timed out
/// under `e`, handed out before the requests.
pub open spec fn endgame_spec(
    b: LookupView,
    a: LookupView,
    rs: Seq<LookupRequest>,
    e: TransactionID,
    t: TableView,
    t2: TableView,
    now: int,
) -> bool {
    let u = b.sorted.filter(not_asked());
    &&& a.in_endgame
    &&& a.action == b.action
    &&& issued(b.pending, seq![message_part(e)] + request_ids(rs)) == Some(a.pending)
    &&& a.table_id == b.table_id && a.target_id == b.target_id && a.recv_values == b.recv_values
    &&& a.will_announce == b.will_announce && a.tokens == b.tokens && a.requested == b.requested
    &&& if b.recv_values {
        &&& rs.len() == 0
        &&& a.active == b.active && a.sorted == b.sorted && t2 == t
    } else {
        &&& request_contacts(rs) == entry_contacts(u)
        &&& a.active == b.active + new_active(rs, entry_dists(u))
        &&& a.sorted == all_asked(b.sorted)
        &&& t2 == record_requests(t, contact_nodes(entry_contacts(u)), now)
    }
}

/// The position of the first outstanding request with transaction id `tid`.
pub open spec fn active_index(active: Seq<(TransactionID, Seq<u8>)>, tid: TransactionID) -> Option<int> {
    if exists|i: int| 0 <= i < active.len() && active[i].0 == tid {
        Some(choose|i: int| 0 <= i < active.len() && active[i].0 == tid && forall|j: int| 0 <= j < i ==> active[j].0 != tid)
    } else {
        None
    }
}

/// `tokens` with the token of `c` set to `tok`.
pub open spec fn upsert_token(
    tokens: Seq<((Seq<u8>, NodeAddr), Seq<u8>)>,
    c: (Seq<u8>, NodeAddr),
    tok: Seq<u8>,
) -> Seq<((Seq<u8>, NodeAddr), Seq<u8>)> {
    if exists|i: int| 0 <= i < tokens.len() && tokens[i].0 == c {
        let i = choose|i: int| 0 <= i < tokens.len() && tokens[i].0 == c && forall|j: int| 0 <= j < i ==> tokens[j].0 != c;
        tokens.update(i, (c, tok))
    } else {
        tokens.push((c, tok))
    }
}

/// Whether a contact was not asked, by the list `r` of those asked.
pub open spec fn not_in(r: Seq<(Seq<u8>, NodeAddr)>) -> spec_fn((Seq<u8>, NodeAddr)) -> bool {
    |c: (Seq<u8>, NodeAddr)| !r.contains(c)
}

/// The closest distance to `target` among `cs` and `d`, the first met on ties.
pub open spec fn closest_dist(cs: Seq<(Seq<u8>, NodeAddr)>, target: Seq<u8>, d: Seq<u8>) -> Seq<u8>
    decreases cs.len(),
{
    if cs.len() == 0 {
        d
    } else {
        let c = closest_dist(cs.drop_last(), target, d);
        let x = distance(target, cs.last().0);
        if lex_lt(x, c) {
            x
        } else {
            c
        }
    }
}

/// Slots `p` after placing `c`, from slot `k` on: into the first free slot, or over the
/// first taken slot whose contact is further from `target`.
pub open spec fn place_closest(
    p: Seq<Option<(Seq<u8>, NodeAddr)>>,
    target: Seq<u8>,
    c: (Seq<u8>, NodeAddr),
    k: int,
) -> Seq<Option<(Seq<u8>, NodeAddr)>>
    decreases p.len() - k,
{
    if k < 0 || k >= p.len() {
        p
    } else {
        match p[k] {
            None => p.update(k, Some(c)),
            Some(o) => if lex_lt(distance(target, c.0), distance(target, o.0)) {
                p.update(k, Some(c))
            } else {
                place_closest(p, target, c, k + 1)
            },
        }
    }
}

/// The `ITERATIVE_PICK_NUM` slots after placing each of `cs` in turn (see `place_closest`).
pub open spec fn pick_iterate(cs: Seq<(Seq<u8>, NodeAddr)>, target: Seq<u8>) -> Seq<Option<(Seq<u8>, NodeAddr)>>
    decreases cs.len(),
{
    if cs.len() == 0 {
        seq![None, None, None]
    } else {
        place_closest(pick_iterate(cs.drop_last(), target), target, cs.last(), 0)
    }
}

/// The contacts in the taken slots of `p`, in slot order.
pub open spec fn somes(p: Seq<Option<(Seq<u8>, NodeAddr)>>) -> Seq<(Seq<u8>, NodeAddr)>
    decreases p.len(),
{
    if p.len() == 0 {
        Seq::empty()
    } else {
        let r = somes(p.drop_last());
        match p.last() {
            Some(c) => r.push(c),
            None => r,
        }
    }
}

/// The sorted list `s` after inserting each of `cs` in turn, marked asked when it is in a
/// slot of `picks` (see `insert_sorted`).
pub open spec fn insert_all(
    s: Seq<EntryView>,
    target: Seq<u8>,
    cs: Seq<(Seq<u8>, NodeAddr)>,
    picks: Seq<Option<(Seq<u8>, NodeAddr)>>,
) -> Seq<EntryView>
    decreases cs.len(),
{
    if cs.len() == 0 {
        s
    } else {
        insert_sorted(
            insert_all(s, target, cs.drop_last(), picks),
            (distance(target, cs.last().0), cs.last(), picks.contains(Some(cs.last()))),
        )
    }
}

/// The models of slots.
pub open spec fn slots_view(p: Seq<Option<Contact>>) -> Seq<Option<(Seq<u8>, NodeAddr)>> {
    p.map_values(|o: Option<Contact>| match o {
        Some(c) => Some(contact_view(c)),
        None => None,
    })
}

/// The models of the contacts, if any.
pub open spec fn opt_contacts(nodes: Option<Vec<Contact>>) -> Option<Seq<(Seq<u8>, NodeAddr)>> {
    match nodes {
        Some(ns) => Some(contacts_view(ns@)),
        None => None,
    }
}

/// The bytes, if any.
pub open spec fn opt_bytes(b: Option<Vec<u8>>) -> Option<Seq<u8>> {
    match b {
        Some(v) => Some(v@),
        None => None,
    }
}

/// Lookup `b` after a request round to `cs` whose requests are `rs` (see `round_spec`).
pub open spec fn round_after(b: LookupView, cs: Seq<(Seq<u8>, NodeAddr)>, dists: Seq<Seq<u8>>, rs: Seq<LookupRequest>) -> LookupView {
    LookupView {
        active: if cs.len() == 0 {
            Seq::empty()
        } else {
            b.active + new_active(rs, dists)
        },
        requested: add_all_requested(b.requested, cs),
        pending: match issued(b.pending, request_ids(rs)) {
            Some(q) => q,
            None => b.pending,
        },
        ..b
    }
}

/// The end of a step: lookup `b` starts the endgame when it is not in it and nothing is
/// outstanding (see `endgame_spec`); else nothing changes.
pub open spec fn settle_spec(
    b: LookupView,
    a: LookupView,
    rs: Seq<LookupRequest>,
    endgame: Option<TransactionID>,
    t: TableView,
    t2: TableView,
    now: int,
) -> bool {
    if !b.in_endgame && b.active.len() == 0 {
        endgame matches Some(e) && endgame_spec(b, a, rs, e, t, t2, now)
    } else {
        a == b && rs.len() == 0 && endgame is None && t2 == t
    }
}

/// Lookup `b` after dropping the outstanding request at position `k`.
pub open spec fn without_active(b: LookupView, k: int) -> LookupView {
    LookupView { active: b.active.remove(k), ..b }
}

/// An answer from `c` to request `tid`, with the compact nodes `nodes`, the peers `values`
/// and the announce token `token`: lookup `b` becomes `a`, the requests `rs` go out, the
/// endgame `endgame` starts if any, and the table `t` becomes `t2`.
///
/// An answer to no outstanding request changes nothing. Otherwise the request is no longer
/// outstanding and the token is kept. Of the nodes given that were not asked yet, the
/// closest distance is compared with the distance the answer had to beat: when it is closer,
/// the closest of them (see `pick_iterate`) are asked next, all beating that new distance.
/// Every node given is put into the sorted list, marked asked when it is asked next. Outside
/// the endgame, the next round goes out, and then the endgame starts if nothing is
/// outstanding (see `settle_spec`).
pub open spec fn response_spec(
    b: LookupView,
    c: (Seq<u8>, NodeAddr),
    tid: TransactionID,
    nodes: Option<Seq<(Seq<u8>, NodeAddr)>>,
    values_given: bool,
    token: Option<Seq<u8>>,
    a: LookupView,
    rs: Seq<LookupRequest>,
    endgame: Option<TransactionID>,
    t: TableView,
    t2: TableView,
    now: int,
) -> bool {
    match active_index(b.active, tid) {
        None => a == b && rs.len() == 0 && endgame is None && t2 == t,
        Some(k) => {
            let dist = b.active[k].1;
            let b1 = LookupView {
                active: b.active.remove(k),
                tokens: match token {
                    Some(tok) => upsert_token(b.tokens, c, tok),
                    None => b.tokens,
                },
                recv_values: b.recv_values || (values_given && nodes is None),
                ..b
            };
            let nr = match nodes {
                Some(ns) => ns.filter(not_in(b.requested)),
                None => Seq::empty(),
            };
            let next = closest_dist(nr, b.target_id, dist);
            let iterate = nodes is Some && lex_lt(next, dist);
            let picks = if iterate {
                pick_iterate(nr, b.target_id)
            } else {
                Seq::empty()
            };
            let b2 = match nodes {
                Some(ns) => LookupView { sorted: insert_all(b1.sorted, b.target_id, ns, picks), ..b1 },
                None => b1,
            };
            let cs = if iterate {
                somes(picks)
            } else {
                Seq::empty()
            };
            go_on_spec(b2, iterate, cs, next, a, rs, endgame, t, t2, now)
        },
    }
}

/// After an answer was taken in, lookup `b2` goes on: outside the endgame, when the answer
/// came closer (`iterate`) it asks `cs`, each answer to beat `next`, and then starts the
/// endgame if nothing is outstanding (see `settle_spec`); in the endgame nothing more is
/// sent. Lookup `a`, the requests `rs`, the endgame `endgame` and table `t2` from `t` result.
pub open spec fn go_on_spec(
    b2: LookupView,
    iterate: bool,
    cs: Seq<(Seq<u8>, NodeAddr)>,
    next: Seq<u8>,
    a: LookupView,
    rs: Seq<LookupRequest>,
    endgame: Option<TransactionID>,
    t: TableView,
    t2: TableView,
    now: int,
) -> bool {
    if b2.in_endgame {
        a == b2 && rs.len() == 0 && endgame is None && t2 == t
    } else {
        let n1 = cs.len() as int;
        let b3 = if iterate {
            round_after(b2, cs, Seq::new(cs.len(), |i: int| next), rs.take(n1))
        } else {
            b2
        };
        &&& rs.len() >= n1
        &&& request_contacts(rs.take(n1)) == cs
        &&& issued(b2.pending, request_ids(rs.take(n1))) is Some
        &&& settle_spec(b3, a, rs.skip(n1), endgame, record_requests(t, contact_nodes(cs), now), t2, now)
    }
}

/// The token `tokens` holds for `c`, the first one if several.
pub open spec fn token_of(tokens: Seq<((Seq<u8>, NodeAddr), Seq<u8>)>, c: (Seq<u8>, NodeAddr)) -> Option<Seq<u8>> {
    if exists|i: int| 0 <= i < tokens.len() && tokens[i].0 == c {
        let i = choose|i: int| 0 <= i < tokens.len() && tokens[i].0 == c && forall|j: int| 0 <= j < i ==> tokens[j].0 != c;
        Some(tokens[i].1)
    } else {
        None
    }
}

/// The contacts of the sorted list that gave us a token, closest first, with their tokens.
pub open spec fn tokened(s: Seq<EntryView>, tokens: Seq<((Seq<u8>, NodeAddr), Seq<u8>)>) -> Seq<((Seq<u8>, NodeAddr), Seq<u8>)>
    decreases s.len(),
{
    if s.len() == 0 {
        Seq::empty()
    } else {
        let r = tokened(s.drop_last(), tokens);
        match token_of(tokens, s.last().1) {
            Some(tok) => r.push((s.last().1, tok)),
            None => r,
        }
    }
}

/// The first `n` of `s`, or all of them if there are fewer.
pub open spec fn first_n<A>(s: Seq<A>, n: int) -> Seq<A> {
    if s.len() <= n {
        s
    } else {
        s.take(n)
    }
}

/// The nodes a finished lookup `b` announces to, with their tokens: the closest
/// `ANNOUNCE_PICK_NUM` that gave us a token, if the lookup announces at all.
pub open spec fn announce_targets(b: LookupView) -> Seq<((Seq<u8>, NodeAddr), Seq<u8>)> {
    if b.will_announce {
        first_n(tokened(b.sorted, b.tokens), ANNOUNCE_PICK_NUM as int)
    } else {
        Seq::empty()
    }
}

/// An announce to send when a lookup ends: its transaction id, the contact to send it to,
/// and the message.
#[derive(Debug)]
pub struct LookupAnnounce {
    /// The transaction id of the announce.
    pub trans_id: TransactionID,
    /// The node announced to.
    pub contact: Contact,
    /// The bencoded announce request.
    pub message: Vec<u8>,
}

/// The message parts of the transaction ids of announces, in order.
pub open spec fn announce_ids(r: Seq<LookupAnnounce>) -> Seq<u64> {
    r.map_values(|a: LookupAnnounce| message_part(a.trans_id))
}

/// Announce `a` of lookup `b`, to target `x`, announcing `port`.
pub open spec fn announce_of(b: LookupView, x: ((Seq<u8>, NodeAddr), Seq<u8>), port: u16, a: LookupAnnounce) -> bool {
    &&& contact_view(a.contact) == x.0
    &&& a.message@ == encode_value(
        announce_request_value(
            AnnouncePeerRequestView {
                trans_id: a.trans_id.bytes(),
                node_id: b.table_id,
                info_hash: b.target_id,
                token: x.1,
                port: ResponsePort::Explicit(port),
            },
        ),
    )
}

/// The nodes a new lookup of `target` starts from: the first `MAX_BUCKET_SIZE` good ones
/// among the closest nodes of the table at time `now` (see `closest_from`).
pub open spec fn initial_candidates(t: TableView, target: Seq<u8>, now: int) -> Seq<NodeView> {
    let start = shared_bits(t.node_id, target);
    first_n(good_in(closest_from(t, start, start, now), now), MAX_BUCKET_SIZE as int)
}

/// The contacts of nodes.
pub open spec fn node_contacts(ns: Seq<NodeView>) -> Seq<(Seq<u8>, NodeAddr)> {
    ns.map_values(|n: NodeView| (n.id, n.addr))
}

/// `s` with its first `n` entries marked asked.
pub open spec fn mark_first(s: Seq<EntryView>, n: int) -> Seq<EntryView> {
    Seq::new(s.len(), |i: int| if i < n { (s[i].0, s[i].1, true) } else { s[i] })
}

/// The sorted list a new lookup of `target` starts with, before any node is asked.
pub open spec fn initial_sorted(t: TableView, target: Seq<u8>, now: int) -> Seq<EntryView> {
    insert_all(Seq::empty(), target, node_contacts(initial_candidates(t, target, now)), Seq::empty())
}

/// How many nodes a lookup starting with the sorted list `s` asks first.
pub open spec fn initial_count(s: Seq<EntryView>) -> int {
    if s.len() < INITIAL_PICK_NUM {
        s.len() as int
    } else {
        INITIAL_PICK_NUM as int
    }
}

/// The model of a new lookup of `target` from our id `table_id`, before its first round, given
/// its sorted list `s`.
pub open spec fn initial_view(
    table_id: Seq<u8>,
    target: Seq<u8>,
    will_announce: bool,
    s: Seq<EntryView>,
    action: u64,
    pending: Set<u64>,
) -> LookupView {
    LookupView {
        table_id,
        target_id: target,
        in_endgame: false,
        recv_values: false,
        will_announce,
        active: Seq::empty(),
        tokens: Seq::empty(),
        requested: Seq::empty(),
        sorted: mark_first(s, initial_count(s)),
        action,
        pending,
    }
}

/// The contacts of `cs` not in `requested` (see `not_in`).
fn unrequested(cs: &Vec<Contact>, requested: &Vec<Contact>) -> (r: Vec<Contact>)
    ensures
        contacts_view(r@) == contacts_view(cs@).filter(not_in(contacts_view(requested@))),
{
    let ghost all = contacts_view(cs@);
    let ghost req = contacts_view(requested@);
    let ghost pred = not_in(req);
    let mut out: Vec<Contact> = Vec::new();
    let mut i: usize = 0;
    while i < cs.len()
        invariant
            all == contacts_view(cs@),
            req == contacts_view(requested@),
            pred == not_in(req),
            i <= cs@.len(),
            contacts_view(out@) == all.take(i as int).filter(pred),
        decreases cs@.len() - i,
    {
        let c = cs[i];
        let mut found = false;
        let mut j: usize = 0;
        while j < requested.len()
            invariant
                req == contacts_view(requested@),
                j <= requested@.len(),
                found ==> req.contains(contact_view(c)),
                !found ==> forall|k: int| 0 <= k < j ==> req[k] != contact_view(c),
            decreases requested@.len() - j,
        {
            if same_contact(&requested[j], &c) {
                assert(req[j as int] == contact_view(c));
                found = true;
            }
            j = j + 1;
        }
        assert(found == req.contains(contact_view(c)));
        proof {
            assert(all.take(i + 1) =~= all.take(i as int).push(all[i as int]));
            all.take(i as int).lemma_filter_push(all[i as int], pred);
        }
        if !found {
            out.push(c);
            assert(contacts_view(out@) =~= all.take(i + 1).filter(pred));
        } else {
            assert(contacts_view(out@) =~= all.take(i + 1).filter(pred));
        }
        i = i + 1;
    }
    assert(all.take(i as int) =~= all);
    out
}

/// The closest distance to `target` among `cs` and `d` (see `closest_dist`).
fn closest_of(cs: &Vec<Contact>, target: &NodeId, d: [u8; 20]) -> (r: [u8; 20])
    ensures
        r@ == closest_dist(contacts_view(cs@), target@, d@),
{
    let ghost all = contacts_view(cs@);
    let mut best = d;
    let mut i: usize = 0;
    while i < cs.len()
        invariant
            all == contacts_view(cs@),
            i <= cs@.len(),
            best@ == closest_dist(all.take(i as int), target@, d@),
        decreases cs@.len() - i,
    {
        let x = xor_distance(target, &cs[i].0);
        proof {
            assert(all.take(i + 1).drop_last() =~= all.take(i as int));
            assert(all.take(i + 1).last() == contact_view(cs@[i as int]));
        }
        if lex_less(x.as_slice(), best.as_slice()) {
            best = x;
        }
        i = i + 1;
    }
    assert(all.take(i as int) =~= all);
    best
}

/// The slots after placing `c` from slot `k` on (see `place_closest`).
fn place_in_slots(p: &mut Vec<Option<Contact>>, target: &NodeId, c: Contact)
    ensures
        slots_view(final(p)@) == place_closest(slots_view(old(p)@), target@, contact_view(c), 0),
{
    let ghost s0 = slots_view(p@);
    let dc = xor_distance(target, &c.0);
    let mut k: usize = 0;
    while k < p.len()
        invariant
            p@ == old(p)@,
            s0 == slots_view(p@),
            k <= p@.len(),
            place_closest(s0, target@, contact_view(c), 0) == place_closest(s0, target@, contact_view(c), k as int),
            dc@ == distance(target@, c.0@),
        decreases p@.len() - k,
    {
        match p[k] {
            None => {
                p.set(k, Some(c));
                assert(slots_view(p@) =~= s0.update(k as int, Some(contact_view(c))));
                return;
            },
            Some(o) => {
                let dold = xor_distance(target, &o.0);
                if lex_less(dc.as_slice(), dold.as_slice()) {
                    p.set(k, Some(c));
                    assert(slots_view(p@) =~= s0.update(k as int, Some(contact_view(c))));
                    return;
                }
            },
        }
        k = k + 1;
    }
}

/// The slots after placing each of `cs` in turn (see `pick_iterate`).
fn pick_iterate_nodes(cs: &Vec<Contact>, target: &NodeId) -> (r: Vec<Option<Contact>>)
    ensures
        slots_view(r@) == pick_iterate(contacts_view(cs@), target@),
{
    let ghost all = contacts_view(cs@);
    let mut p: Vec<Option<Contact>> = vec![None, None, None];
    assert(slots_view(p@) =~= pick_iterate(all.take(0), target@));
    let mut i: usize = 0;
    while i < cs.len()
        invariant
            all == contacts_view(cs@),
            i <= cs@.len(),
            slots_view(p@) == pick_iterate(all.take(i as int), target@),
        decreases cs@.len() - i,
    {
        place_in_slots(&mut p, target, cs[i]);
        proof {
            assert(all.take(i + 1).drop_last() =~= all.take(i as int));
            assert(all.take(i + 1).last() == contact_view(cs@[i as int]));
        }
        i = i + 1;
    }
    assert(all.take(i as int) =~= all);
    p
}

/// The contacts in the taken slots (see `somes`).
fn picked(p: &Vec<Option<Contact>>) -> (r: Vec<Contact>)
    ensures
        contacts_view(r@) == somes(slots_view(p@)),
{
    let ghost sv = slots_view(p@);
    let mut out: Vec<Contact> = Vec::new();
    let mut i: usize = 0;
    while i < p.len()
        invariant
            sv == slots_view(p@),
            i <= p@.len(),
            contacts_view(out@) == somes(sv.take(i as int)),
        decreases p@.len() - i,
    {
        proof {
            assert(sv.take(i + 1).drop_last() =~= sv.take(i as int));
        }
        match p[i] {
            Some(c) => {
                out.push(c);
                assert(contacts_view(out@) =~= somes(sv.take(i as int)).push(contact_view(c)));
            },
            None => {},
        }
        i = i + 1;
    }
    assert(sv.take(i as int) =~= sv);
    out
}

/// Whether `c` is in a taken slot of `p`.
fn in_slots(p: &Vec<Option<Contact>>, c: &Contact) -> (r: bool)
    ensures
        r == slots_view(p@).contains(Some(contact_view(*c))),
{
    let ghost sv = slots_view(p@);
    let mut i: usize = 0;
    while i < p.len()
        invariant
            sv == slots_view(p@),
            i <= p@.len(),
            forall|j: int| 0 <= j < i ==> sv[j] != Some(contact_view(*c)),
        decreases p@.len() - i,
    {
        match p[i] {
            Some(o) => {
                if same_contact(&o, c) {
                    assert(sv[i as int] == Some(contact_view(*c)));
                    return true;
                }
            },
            None => {},
        }
        i = i + 1;
    }
    false
}

/// A lookup of an info hash.
pub struct TableLookup {
    table_id: NodeId,
    target_id: NodeId,
    in_endgame: bool,
    recv_values: bool,
    id_generator: MIDGenerator,
    will_announce: bool,
    active_lookups: Vec<(TransactionID, [u8; 20])>,
    announce_tokens: Vec<(Contact, Vec<u8>)>,
    requested_nodes: Vec<Contact>,
    all_sorted_nodes: Vec<([u8; 20], Contact, bool)>,
}

impl View for TableLookup {
    type V = LookupView;

    closed spec fn view(&self) -> LookupView {
        LookupView {
            table_id: self.table_id@,
            target_id: self.target_id@,
            in_endgame: self.in_endgame,
            recv_values: self.recv_values,
            will_announce: self.will_announce,
            active: self.active_lookups@.map_values(|a: (TransactionID, [u8; 20])| (a.0, a.1@)),
            tokens: self.announce_tokens@.map_values(|t: (Contact, Vec<u8>)| (contact_view(t.0), t.1@)),
            requested: contacts_view(self.requested_nodes@),
            sorted: entries_view(self.all_sorted_nodes@),
            action: self.id_generator.action_value(),
            pending: self.id_generator.pending(),
        }
    }
}

impl TableLookup {
    /// A lookup of `target_id` from our id `table_id`, at time `now`, announcing at the end if
    /// `will_announce`. It starts from the closest good nodes of the table (see
    /// `initial_sorted`) and asks the first `INITIAL_PICK_NUM` of them, the answer of each to
    /// beat its own distance; with none to ask it is completed at once.
    #[verifier::rlimit(50)]
    pub fn new_at(
        table_id: NodeId,
        target_id: NodeId,
        id_generator: MIDGenerator,
        will_announce: bool,
        table: &mut RoutingTable,
        now: i64,
    ) -> (r: (TableLookup, LookupStep))
        requires
            id_generator.wf(),
            old(table).wf(),
        ensures
            r.0.wf(),
            final(table).wf(),
            r.0.action_value() == id_generator.action_value(),
            ({
                let s = initial_sorted(old(table)@, target_id@, now as int);
                let init = s.take(initial_count(s));
                round_spec(
                    initial_view(table_id@, target_id@, will_announce, s, id_generator.action_value(), id_generator.pending()),
                    entry_contacts(init),
                    entry_dists(init),
                    r.0@,
                    r.1.requests@,
                    old(table)@,
                    final(table)@,
                    now as int,
                )
            }),
            r.1.endgame is None,
            r.1.status == (if initial_count(initial_sorted(old(table)@, target_id@, now as int)) == 0 {
                LookupStatus::Completed
            } else {
                LookupStatus::Searching
            }),
            forall|i: int| 0 <= i < r.1.requests@.len() ==> (#[trigger] r.1.requests@[i]).trans_id.value() / 0x100_0000
                == id_generator.action_value(),
    {
        let ghost t = table@;
        let closest = table.closest_nodes_at(&target_id, now);
        let ghost all = nodes_view(closest@);
        let mut lookup = TableLookup {
            table_id,
            target_id,
            in_endgame: false,
            recv_values: false,
            id_generator,
            will_announce,
            active_lookups: Vec::new(),
            announce_tokens: Vec::new(),
            requested_nodes: Vec::new(),
            all_sorted_nodes: Vec::new(),
        };
        let mut count: usize = 0;
        let mut i: usize = 0;
        while i < closest.len()
            invariant
                all == nodes_view(closest@),
                i <= closest@.len(),
                count == first_n(good_in(all.take(i as int), now as int), MAX_BUCKET_SIZE as int).len(),
                count <= MAX_BUCKET_SIZE,
                entries_view(lookup.all_sorted_nodes@) == insert_all(
                    Seq::empty(),
                    target_id@,
                    node_contacts(first_n(good_in(all.take(i as int), now as int), MAX_BUCKET_SIZE as int)),
                    Seq::empty(),
                ),
                lookup.target_id == target_id,
                lookup.table_id == table_id,
                lookup.will_announce == will_announce,
                lookup.in_endgame == false,
                lookup.recv_values == false,
                lookup.active_lookups@.len() == 0,
                lookup.announce_tokens@.len() == 0,
                lookup.requested_nodes@.len() == 0,
                lookup.id_generator == id_generator,
            decreases closest@.len() - i,
        {
            let ghost pre = good_in(all.take(i as int), now as int);
            let ghost x = all[i as int];
            proof {
                assert(all.take(i + 1) =~= all.take(i as int).push(x));
                all.take(i as int).lemma_filter_push(x, good_at(now as int));
            }
            let st = closest[i].status_at(now);
            assert(closest@[i as int]@ == x);
            if st == NodeStatus::Good {
                let ghost post = good_in(all.take(i + 1), now as int);
                assert(post == pre.push(x));
                if count < MAX_BUCKET_SIZE {
                    let c: Contact = (closest[i].id(), closest[i].addr());
                    insert_sorted_node(&mut lookup.all_sorted_nodes, &target_id, c, false);
                    count = count + 1;
                    proof {
                        assert(first_n(pre, MAX_BUCKET_SIZE as int) =~= pre);
                        assert(first_n(post, MAX_BUCKET_SIZE as int) =~= post);
                        assert(node_contacts(post) =~= node_contacts(pre).push(contact_view(c)));
                        assert(node_contacts(post).drop_last() =~= node_contacts(pre));
                        let e: Seq<Option<(Seq<u8>, NodeAddr)>> = Seq::empty();
                        assert(!e.contains(Some(contact_view(c))));
                    }
                } else {
                    assert(first_n(post, MAX_BUCKET_SIZE as int) =~= first_n(pre, MAX_BUCKET_SIZE as int));
                }
            } else {
                assert(good_in(all.take(i + 1), now as int) == pre);
            }
            i = i + 1;
        }
        assert(all.take(i as int) =~= all);
        let ghost s0 = entries_view(lookup.all_sorted_nodes@);
        assert(s0 == initial_sorted(t, target_id@, now as int));
        let m: usize = if lookup.all_sorted_nodes.len() < INITIAL_PICK_NUM {
            lookup.all_sorted_nodes.len()
        } else {
            INITIAL_PICK_NUM
        };
        let mut nodes: Vec<Contact> = Vec::new();
        let mut dists: Vec<[u8; 20]> = Vec::new();
        let mut j: usize = 0;
        while j < m
            invariant
                m == initial_count(s0),
                m <= s0.len(),
                s0.len() == lookup.all_sorted_nodes@.len(),
                j <= m,
                entries_view(lookup.all_sorted_nodes@) == mark_first(s0, j as int),
                contacts_view(nodes@) == entry_contacts(s0.take(j as int)),
                dists@.map_values(|d: [u8; 20]| d@) == entry_dists(s0.take(j as int)),
                lookup.target_id == target_id,
                lookup.table_id == table_id,
                lookup.will_announce == will_announce,
                lookup.in_endgame == false,
                lookup.recv_values == false,
                lookup.active_lookups@.len() == 0,
                lookup.announce_tokens@.len() == 0,
                lookup.requested_nodes@.len() == 0,
                lookup.id_generator == id_generator,
            decreases m - j,
        {
            let entry = lookup.all_sorted_nodes[j];
            assert(entry_view(entry) == mark_first(s0, j as int)[j as int]);
            assert(mark_first(s0, j as int)[j as int] == s0[j as int]);
            let ghost before = entries_view(lookup.all_sorted_nodes@);
            lookup.all_sorted_nodes.set(j, (entry.0, entry.1, true));
            assert(entries_view(lookup.all_sorted_nodes@) =~= before.update(j as int, (s0[j as int].0, s0[j as int].1, true)));
            let ghost nodes0 = contacts_view(nodes@);
            let ghost dists0 = dists@.map_values(|d: [u8; 20]| d@);
            nodes.push(entry.1);
            dists.push(entry.0);
            proof {
                assert(contacts_view(nodes@) =~= nodes0.push(contact_view(entry.1)));
                assert(dists@.map_values(|d: [u8; 20]| d@) =~= dists0.push(entry.0@));
                assert(entry_contacts(s0.take(j + 1)) =~= entry_contacts(s0.take(j as int)).push(s0[j as int].1));
                assert(entry_dists(s0.take(j + 1)) =~= entry_dists(s0.take(j as int)).push(s0[j as int].0));
                assert(entries_view(lookup.all_sorted_nodes@) =~= mark_first(s0, j + 1));
                assert(s0.take(j + 1) =~= s0.take(j as int).push(s0[j as int]));
                assert(contacts_view(nodes@) =~= entry_contacts(s0.take(j + 1)));
                assert(dists@.map_values(|d: [u8; 20]| d@) =~= entry_dists(s0.take(j + 1)));
            }
            j = j + 1;
        }
        assert(lookup@.active =~= Seq::<(TransactionID, Seq<u8>)>::empty());
        assert(lookup@.tokens =~= Seq::<((Seq<u8>, NodeAddr), Seq<u8>)>::empty());
        assert(lookup@.requested =~= Seq::<(Seq<u8>, NodeAddr)>::empty());
        assert(lookup@ == initial_view(table_id@, target_id@, will_announce, s0, id_generator.action_value(), id_generator.pending()));
        let (requests, status) = lookup.start_request_round(&nodes, &dists, table, now);
        (lookup, LookupStep { requests, endgame: None, status })
    }

    /// The lookup's transaction ids are handed out by a consistent generator.
    pub closed spec fn wf(self) -> bool {
        self.id_generator.wf()
    }

    /// The action of the lookup's transaction ids.
    pub closed spec fn action_value(self) -> u64 {
        self.id_generator.action_value()
    }

    /// Where the lookup stands (see `current_status`).
    pub fn current_lookup_status(&self) -> (r: LookupStatus)
        ensures
            r == current_status(self@),
    {
        if self.in_endgame || self.active_lookups.len() > 0 {
            LookupStatus::Searching
        } else {
            LookupStatus::Completed
        }
    }

    /// The info hash looked up.
    pub fn info_hash(&self) -> (r: NodeId)
        ensures
            r@ == self@.target_id,
    {
        self.target_id
    }

    /// The position of the outstanding request `tid` (see `active_index`).
    fn find_active(&self, tid: &TransactionID) -> (r: Option<usize>)
        ensures
            r is None ==> active_index(self@.active, *tid) is None,
            r matches Some(k) ==> k < self@.active.len() && active_index(self@.active, *tid) == Some(k as int),
    {
        let ghost act = self@.active;
        let mut i: usize = 0;
        while i < self.active_lookups.len()
            invariant
                act == self@.active,
                i <= act.len(),
                forall|j: int| 0 <= j < i ==> act[j].0 != *tid,
            decreases act.len() - i,
        {
            if self.active_lookups[i].0.same_as(tid) {
                assert(act[i as int].0 == *tid);
                proof {
                    let c = choose|c: int| 0 <= c < act.len() && act[c].0 == *tid && forall|j: int| 0 <= j < c ==> act[j].0 != *tid;
                    assert(0 <= i < act.len() && act[i as int].0 == *tid && forall|j: int| 0 <= j < i ==> act[j].0 != *tid);
                    if c < i {
                        assert(act[c].0 != *tid);
                    } else if c > i {
                        assert(act[i as int].0 != *tid);
                    }
                }
                return Some(i);
            }
            i = i + 1;
        }
        None
    }

    /// Sets the announce token of `c` to `tok` (see `upsert_token`).
    fn set_token(&mut self, c: Contact, tok: Vec<u8>)
        ensures
            final(self)@ == (LookupView { tokens: upsert_token(old(self)@.tokens, contact_view(c), tok@), ..old(self)@ }),
            final(self).id_generator == old(self).id_generator,
    {
        let ghost toks = self@.tokens;
        let mut i: usize = 0;
        while i < self.announce_tokens.len()
            invariant
                *self == *old(self),
                toks == self@.tokens,
                i <= toks.len(),
                forall|j: int| 0 <= j < i ==> toks[j].0 != contact_view(c),
            decreases toks.len() - i,
        {
            if same_contact(&self.announce_tokens[i].0, &c) {
                proof {
                    let k = choose|k: int| 0 <= k < toks.len() && toks[k].0 == contact_view(c) && forall|j: int| 0 <= j < k ==> toks[j].0 != contact_view(c);
                    assert(toks[i as int].0 == contact_view(c));
                    assert(0 <= i < toks.len() && toks[i as int].0 == contact_view(c) && forall|j: int| 0 <= j < i ==> toks[j].0 != contact_view(c));
                    if k < i {
                        assert(toks[k].0 != contact_view(c));
                    } else if k > i {
                        assert(toks[i as int].0 != contact_view(c));
                    }
                }
                self.announce_tokens.set(i, (c, tok));
                assert(self@.tokens =~= toks.update(i as int, (contact_view(c), tok@)));
                assert(self@.active == old(self)@.active);
                return;
            }
            i = i + 1;
        }
        self.announce_tokens.push((c, tok));
        assert(self@.tokens =~= toks.push((contact_view(c), tok@)));
        assert(self@.active == old(self)@.active);
    }

    /// Inserts each of `cs` into the sorted list, marked asked when it is in a slot of
    /// `picks` (see `insert_all`).
    fn insert_all_nodes(&mut self, cs: &Vec<Contact>, picks: &Vec<Option<Contact>>)
        ensures
            final(self)@ == (LookupView {
                sorted: insert_all(old(self)@.sorted, old(self)@.target_id, contacts_view(cs@), slots_view(picks@)),
                ..old(self)@
            }),
            final(self).id_generator == old(self).id_generator,
    {
        let ghost all = contacts_view(cs@);
        let ghost b = self@;
        let target = self.target_id;
        let mut i: usize = 0;
        while i < cs.len()
            invariant
                all == contacts_view(cs@),
                target@ == b.target_id,
                i <= cs@.len(),
                self@ == (LookupView { sorted: insert_all(b.sorted, b.target_id, all.take(i as int), slots_view(picks@)), ..b }),
                self.id_generator == old(self).id_generator,
                b == old(self)@,
            decreases cs@.len() - i,
        {
            let c = cs[i];
            let ping = in_slots(picks, &c);
            insert_sorted_node(&mut self.all_sorted_nodes, &target, c, ping);
            proof {
                assert(all.take(i + 1).drop_last() =~= all.take(i as int));
                assert(all.take(i + 1).last() == contact_view(c));
            }
            i = i + 1;
        }
        assert(all.take(i as int) =~= all);
    }

    /// Ends a step (see `settle_spec`).
    fn settle(&mut self, table: &mut RoutingTable, now: i64) -> (r: (Vec<LookupRequest>, Option<TransactionID>))
        requires
            old(self).wf(),
            old(table).wf(),
        ensures
            final(self).wf(),
            final(table).wf(),
            final(self).action_value() == old(self).action_value(),
            settle_spec(old(self)@, final(self)@, r.0@, r.1, old(table)@, final(table)@, now as int),
            forall|i: int| 0 <= i < r.0@.len() ==> (#[trigger] r.0@[i]).trans_id.value() / 0x100_0000 == old(self).action_value(),
            r.1 matches Some(e) ==> e.value() / 0x100_0000 == old(self).action_value(),
    {
        if !self.in_endgame && self.active_lookups.len() == 0 {
            let (rs, e) = self.start_endgame_round(table, now);
            (rs, Some(e))
        } else {
            (Vec::new(), None)
        }
    }

    /// A request timed out (see `settle_spec`): a request not outstanding changes nothing;
    /// else it is dropped, and the endgame starts if nothing else is outstanding.
    #[verifier::rlimit(50)]
    pub fn recv_timeout_at(&mut self, trans_id: &TransactionID, table: &mut RoutingTable, now: i64) -> (step: LookupStep)
        requires
            old(self).wf(),
            old(table).wf(),
        ensures
            final(self).wf(),
            final(table).wf(),
            final(self).action_value() == old(self).action_value(),
            match active_index(old(self)@.active, *trans_id) {
                None => final(self)@ == old(self)@ && final(table)@ == old(table)@ && step.requests@.len() == 0
                    && step.endgame is None,
                Some(k) => settle_spec(
                    without_active(old(self)@, k),
                    final(self)@,
                    step.requests@,
                    step.endgame,
                    old(table)@,
                    final(table)@,
                    now as int,
                ),
            },
            step.status == current_status(final(self)@),
            forall|i: int| 0 <= i < step.requests@.len() ==> (#[trigger] step.requests@[i]).trans_id.value() / 0x100_0000
                == old(self).action_value(),
            step.endgame matches Some(e) ==> e.value() / 0x100_0000 == old(self).action_value(),
    {
        match self.find_active(trans_id) {
            None => LookupStep { requests: Vec::new(), endgame: None, status: self.current_lookup_status() },
            Some(k) => {
                let ghost b = self@;
                let ghost t = table@;
                assert(active_index(b.active, *trans_id) == Some(k as int));
                self.active_lookups.remove(k);
                assert(self@.active =~= b.active.remove(k as int));
                assert(self@ == without_active(b, k as int));
                let (requests, endgame) = self.settle(table, now);
                assert(settle_spec(without_active(b, k as int), self@, requests@, endgame, t, table@, now as int));
                let status = self.current_lookup_status();
                LookupStep { requests, endgame, status }
            },
        }
    }

    /// An answer from `contact` to request `trans_id`, with the compact nodes `nodes`, the
    /// peers `values` and the announce token `token`, at time `now` (see `response_spec`).
    /// With peers the status reports them; else it is where the lookup stands. An answer to
    /// no outstanding request reports where the lookup stands.
    #[verifier::rlimit(100)]
    pub fn recv_response_at(
        &mut self,
        contact: Contact,
        trans_id: &TransactionID,
        nodes: Option<Vec<Contact>>,
        values: Option<Vec<NodeAddr>>,
        token: Option<Vec<u8>>,
        table: &mut RoutingTable,
        now: i64,
    ) -> (step: LookupStep)
        requires
            old(self).wf(),
            old(table).wf(),
        ensures
            final(self).wf(),
            final(table).wf(),
            final(self).action_value() == old(self).action_value(),
            response_spec(
                old(self)@,
                contact_view(contact),
                *trans_id,
                opt_contacts(nodes),
                values is Some,
                opt_bytes(token),
                final(self)@,
                step.requests@,
                step.endgame,
                old(table)@,
                final(table)@,
                now as int,
            ),
            match (active_index(old(self)@.active, *trans_id), values) {
                (Some(_), Some(v)) => step.status == LookupStatus::Values(v),
                _ => step.status == current_status(final(self)@),
            },
            forall|i: int| 0 <= i < step.requests@.len() ==> (#[trigger] step.requests@[i]).trans_id.value() / 0x100_0000
                == old(self).action_value(),
            step.endgame matches Some(e) ==> e.value() / 0x100_0000 == old(self).action_value(),
    {
        let ghost b = self@;
        let ghost t = table@;
        let ghost gnodes = opt_contacts(nodes);
        let ghost gtoken = opt_bytes(token);
        let ghost values_given = values is Some;
        let k = match self.find_active(trans_id) {
            None => {
                return LookupStep { requests: Vec::new(), endgame: None, status: self.current_lookup_status() };
            },
            Some(k) => k,
        };
        assert(active_index(b.active, *trans_id) == Some(k as int));
        let (_, dist) = self.active_lookups.remove(k);
        assert(self@.active =~= b.active.remove(k as int));
        assert(dist@ == b.active[k as int].1);
        match token {
            Some(tok) => self.set_token(contact, tok),
            None => {},
        }
        if values.is_some() && nodes.is_none() {
            self.recv_values = true;
        }
        let ghost b1 = self@;
        assert(b1 == LookupView {
            active: b.active.remove(k as int),
            tokens: match gtoken {
                Some(tok) => upsert_token(b.tokens, contact_view(contact), tok),
                None => b.tokens,
            },
            recv_values: b.recv_values || (values_given && gnodes is None),
            ..b
        });
        let (iterate, iterate_nodes, next) = self.take_in_nodes(nodes, dist);
        let (requests, endgame) = self.go_on(iterate, &iterate_nodes, next, table, now);
        let status = match values {
            Some(v) => LookupStatus::Values(v),
            None => self.current_lookup_status(),
        };
        LookupStep { requests, endgame, status }
    }

    /// Takes in the compact nodes of an answer whose distance to beat was `dist` (see
    /// `response_spec`): whether the lookup came closer, the nodes to ask next, and the new
    /// distance to beat.
    fn take_in_nodes(&mut self, nodes: Option<Vec<Contact>>, dist: [u8; 20]) -> (r: (bool, Vec<Contact>, [u8; 20]))
        ensures
            final(self).id_generator == old(self).id_generator,
            ({
                let b = old(self)@;
                let nr = match opt_contacts(nodes) {
                    Some(ns) => ns.filter(not_in(b.requested)),
                    None => Seq::empty(),
                };
                let next = closest_dist(nr, b.target_id, dist@);
                let iterate = opt_contacts(nodes) is Some && lex_lt(next, dist@);
                let picks = if iterate {
                    pick_iterate(nr, b.target_id)
                } else {
                    Seq::empty()
                };
                &&& r.0 == iterate
                &&& r.2@ == next
                &&& contacts_view(r.1@) == if iterate {
                    somes(picks)
                } else {
                    Seq::<(Seq<u8>, NodeAddr)>::empty()
                }
                &&& final(self)@ == match opt_contacts(nodes) {
                    Some(ns) => LookupView { sorted: insert_all(b.sorted, b.target_id, ns, picks), ..b },
                    None => b,
                }
            }),
    {
        let ghost b = self@;
        let ghost gnodes = opt_contacts(nodes);
        let ghost gnr = match gnodes {
            Some(ns) => ns.filter(not_in(b.requested)),
            None => Seq::empty(),
        };
        let mut iterate = false;
        let mut iterate_nodes: Vec<Contact> = Vec::new();
        let mut next = dist;
        let ghost mut gpicks: Seq<Option<(Seq<u8>, NodeAddr)>> = Seq::empty();
        match nodes {
            Some(ns) => {
                let nr = unrequested(&ns, &self.requested_nodes);
                assert(contacts_view(nr@) == gnr);
                let target = self.target_id;
                next = closest_of(&nr, &target, dist);
                if lex_less(next.as_slice(), dist.as_slice()) {
                    let p = pick_iterate_nodes(&nr, &target);
                    self.insert_all_nodes(&ns, &p);
                    iterate_nodes = picked(&p);
                    iterate = true;
                    proof {
                        gpicks = slots_view(p@);
                    }
                } else {
                    let p: Vec<Option<Contact>> = Vec::new();
                    assert(slots_view(p@) =~= Seq::<Option<(Seq<u8>, NodeAddr)>>::empty());
                    self.insert_all_nodes(&ns, &p);
                }
            },
            None => {
                assert(closest_dist(gnr, b.target_id, dist@) == dist@);
            },
        }
        assert(contacts_view(iterate_nodes@) == if iterate {
            somes(gpicks)
        } else {
            Seq::<(Seq<u8>, NodeAddr)>::empty()
        }) by {
            if !iterate {
                assert(contacts_view(iterate_nodes@) =~= Seq::<(Seq<u8>, NodeAddr)>::empty());
            }
        }
        (iterate, iterate_nodes, next)
    }

    /// Goes on after an answer was taken in (see `go_on_spec`).
    #[verifier::rlimit(50)]
    fn go_on(&mut self, iterate: bool, iterate_nodes: &Vec<Contact>, next: [u8; 20], table: &mut RoutingTable, now: i64) -> (r: (
        Vec<LookupRequest>,
        Option<TransactionID>,
    ))
        requires
            old(self).wf(),
            old(table).wf(),
            !iterate ==> iterate_nodes@.len() == 0,
        ensures
            final(self).wf(),
            final(table).wf(),
            final(self).action_value() == old(self).action_value(),
            go_on_spec(
                old(self)@,
                iterate,
                contacts_view(iterate_nodes@),
                next@,
                final(self)@,
                r.0@,
                r.1,
                old(table)@,
                final(table)@,
                now as int,
            ),
            forall|i: int| 0 <= i < r.0@.len() ==> (#[trigger] r.0@[i]).trans_id.value() / 0x100_0000 == old(self).action_value(),
            r.1 matches Some(e) ==> e.value() / 0x100_0000 == old(self).action_value(),
    {
        let ghost b2 = self@;
        let ghost t = table@;
        let ghost cs = contacts_view(iterate_nodes@);
        let mut requests: Vec<LookupRequest> = Vec::new();
        if self.in_endgame {
            return (requests, None);
        }
        if iterate {
            let mut dists: Vec<[u8; 20]> = Vec::new();
            let mut j: usize = 0;
            while j < iterate_nodes.len()
                invariant
                    j <= iterate_nodes@.len(),
                    dists@.len() == j,
                    forall|i: int| 0 <= i < j ==> dists@[i] == next,
                decreases iterate_nodes@.len() - j,
            {
                dists.push(next);
                j = j + 1;
            }
            assert(dists@.map_values(|d: [u8; 20]| d@) =~= Seq::new(cs.len(), |i: int| next@));
            let (rs, _) = self.start_request_round(iterate_nodes, &dists, table, now);
            requests = rs;
            assert(self@ == round_after(b2, cs, Seq::new(cs.len(), |i: int| next@), requests@));
        } else {
            assert(cs =~= Seq::<(Seq<u8>, NodeAddr)>::empty());
            assert(contact_nodes(cs) =~= Seq::<NodeView>::empty());
            assert(record_requests(t, contact_nodes(cs), now as int) == t);
            assert(request_ids(requests@) =~= Seq::<u64>::empty());
        }
        let ghost rs1 = requests@;
        let ghost t3 = table@;
        assert(t3 == record_requests(t, contact_nodes(cs), now as int));
        assert(request_contacts(rs1) =~= cs);
        let (mut rs2, e) = self.settle(table, now);
        let ghost grs2 = rs2@;
        requests.append(&mut rs2);
        assert(requests@.take(cs.len() as int) =~= rs1);
        assert(requests@.skip(cs.len() as int) =~= grs2);
        (requests, e)
    }

    /// The token held for `c` (see `token_of`).
    fn find_token(&self, c: &Contact) -> (r: Option<Vec<u8>>)
        ensures
            opt_bytes(r) == token_of(self@.tokens, contact_view(*c)),
    {
        let ghost toks = self@.tokens;
        let mut i: usize = 0;
        while i < self.announce_tokens.len()
            invariant
                toks == self@.tokens,
                i <= toks.len(),
                forall|j: int| 0 <= j < i ==> toks[j].0 != contact_view(*c),
            decreases toks.len() - i,
        {
            if same_contact(&self.announce_tokens[i].0, c) {
                proof {
                    let k = choose|k: int| 0 <= k < toks.len() && toks[k].0 == contact_view(*c) && forall|j: int| 0 <= j < k ==> toks[j].0 != contact_view(*c);
                    assert(toks[i as int].0 == contact_view(*c));
                    assert(0 <= i < toks.len() && toks[i as int].0 == contact_view(*c) && forall|j: int| 0 <= j < i ==> toks[j].0 != contact_view(*c));
                    if k < i {
                        assert(toks[k].0 != contact_view(*c));
                    } else if k > i {
                        assert(toks[i as int].0 != contact_view(*c));
                    }
                }
                return Some(self.announce_tokens[i].1.clone());
            }
            i = i + 1;
        }
        None
    }

    /// Ends the lookup at time `now`: announces `port` to the closest nodes that gave us a
    /// token (see `announce_targets`), recording the requests in the table; then nothing is
    /// outstanding and the endgame is over.
    #[verifier::rlimit(50)]
    pub fn recv_finished(&mut self, port: u16, table: &mut RoutingTable, now: i64) -> (r: Vec<LookupAnnounce>)
        requires
            old(self).wf(),
            old(table).wf(),
        ensures
            final(self).wf(),
            final(table).wf(),
            final(self).action_value() == old(self).action_value(),
            final(self)@ == (LookupView { active: Seq::empty(), in_endgame: false, pending: final(self)@.pending, ..old(self)@ }),
            issued(old(self)@.pending, announce_ids(r@)) == Some(final(self)@.pending),
            r@.len() == announce_targets(old(self)@).len(),
            forall|i: int| 0 <= i < r@.len() ==> announce_of(old(self)@, announce_targets(old(self)@)[i], port, #[trigger] r@[i]),
            forall|i: int| 0 <= i < r@.len() ==> (#[trigger] r@[i]).trans_id.value() / 0x100_0000 == old(self).action_value(),
            final(table)@ == record_requests(
                old(table)@,
                contact_nodes(announce_targets(old(self)@).map_values(|x: ((Seq<u8>, NodeAddr), Seq<u8>)| x.0)),
                now as int,
            ),
    {
        let ghost b = self@;
        let ghost t = table@;
        let ghost all = tokened(b.sorted, b.tokens);
        let mut out: Vec<LookupAnnounce> = Vec::new();
        assert(announce_ids(out@) =~= Seq::<u64>::empty());
        if self.will_announce {
            let mut i: usize = 0;
            while i < self.all_sorted_nodes.len()
                invariant
                    self.wf(),
                    table.wf(),
                    self.action_value() == old(self).action_value(),
                    self@ == (LookupView { pending: self@.pending, ..b }),
                    issued(b.pending, announce_ids(out@)) == Some(self@.pending),
                    b.will_announce,
                    all == tokened(b.sorted, b.tokens),
                    i <= b.sorted.len(),
                    out@.len() == first_n(tokened(b.sorted.take(i as int), b.tokens), ANNOUNCE_PICK_NUM as int).len(),
                    out@.len() <= ANNOUNCE_PICK_NUM,
                    forall|j: int| 0 <= j < out@.len() ==> announce_of(b, first_n(tokened(b.sorted.take(i as int), b.tokens), ANNOUNCE_PICK_NUM as int)[j], port, #[trigger] out@[j]),
                    forall|j: int| 0 <= j < out@.len() ==> (#[trigger] out@[j]).trans_id.value() / 0x100_0000 == old(self).action_value(),
                    table@ == record_requests(
                        t,
                        contact_nodes(first_n(tokened(b.sorted.take(i as int), b.tokens), ANNOUNCE_PICK_NUM as int).map_values(
                            |x: ((Seq<u8>, NodeAddr), Seq<u8>)| x.0,
                        )),
                        now as int,
                    ),
                decreases b.sorted.len() - i,
            {
                let entry = self.all_sorted_nodes[i];
                let ghost pre = tokened(b.sorted.take(i as int), b.tokens);
                let ghost post = tokened(b.sorted.take(i + 1), b.tokens);
                assert(entry_view(entry) == b.sorted[i as int]);
                assert(b.sorted.take(i + 1).drop_last() =~= b.sorted.take(i as int));
                assert(b.sorted.take(i + 1).last() == b.sorted[i as int]);
                let tok = self.find_token(&entry.1);
                match tok {
                    Some(tok) => {
                        assert(post == pre.push((contact_view(entry.1), tok@)));
                        if out.len() < ANNOUNCE_PICK_NUM {
                            let ghost outp = out@;
                            let trans_id = self.id_generator.generate();
                            let message = match AnnouncePeerRequest::new(
                                trans_id.as_ref(),
                                self.table_id.as_slice(),
                                self.target_id.as_slice(),
                                tok.as_slice(),
                                ResponsePort::Explicit(port),
                            ) {
                                Ok(req) => req.encode(),
                                Err(_) => {
                                    assert(false);
                                    Vec::new()
                                },
                            };
                            let ghost out0 = out@;
                            out.push(LookupAnnounce { trans_id, contact: entry.1, message });
                            let probe = Node::as_bad(entry.1.0, entry.1.1);
                            table.local_request_at(&probe, now);
                            proof {
                                assert(announce_ids(out@) =~= announce_ids(outp).push(message_part(trans_id)));
                                lemma_issued_push(b.pending, announce_ids(outp), message_part(trans_id));
                                assert(first_n(pre, ANNOUNCE_PICK_NUM as int) =~= pre);
                                assert(first_n(post, ANNOUNCE_PICK_NUM as int) =~= post);
                                let f1 = post.map_values(|x: ((Seq<u8>, NodeAddr), Seq<u8>)| x.0);
                                let f0 = pre.map_values(|x: ((Seq<u8>, NodeAddr), Seq<u8>)| x.0);
                                assert(f1 =~= f0.push(contact_view(entry.1)));
                                assert(contact_nodes(f1) =~= contact_nodes(f0).push(probe@));
                                assert(contact_nodes(f1).drop_last() =~= contact_nodes(f0));
                                assert forall|j: int| 0 <= j < out@.len() implies announce_of(b, post[j], port, #[trigger] out@[j]) by {
                                    if j < out0.len() {
                                        assert(out@[j] == out0[j]);
                                        assert(post[j] == pre[j]);
                                    }
                                }
                            }
                        } else {
                            assert(first_n(post, ANNOUNCE_PICK_NUM as int) =~= first_n(pre, ANNOUNCE_PICK_NUM as int));
                        }
                    },
                    None => {
                        assert(post == pre);
                    },
                }
                i = i + 1;
            }
            assert(b.sorted.take(b.sorted.len() as int) =~= b.sorted);
        } else {
            assert(announce_targets(b) =~= Seq::<((Seq<u8>, NodeAddr), Seq<u8>)>::empty());
            assert(contact_nodes(announce_targets(b).map_values(|x: ((Seq<u8>, NodeAddr), Seq<u8>)| x.0)) =~= Seq::<NodeView>::empty());
        }
        self.active_lookups.clear();
        self.in_endgame = false;
        assert(self@.active =~= Seq::<(TransactionID, Seq<u8>)>::empty());
        out
    }

    /// Records that `c` was asked.
    fn mark_requested(&mut self, c: Contact)
        ensures
            final(self)@ == (LookupView { requested: add_requested(old(self)@.requested, contact_view(c)), ..old(self)@ }),
            final(self).id_generator == old(self).id_generator,
    {
        let ghost r = self@.requested;
        let mut i: usize = 0;
        while i < self.requested_nodes.len()
            invariant
                *self == *old(self),
                r == contacts_view(self.requested_nodes@),
                i <= self.requested_nodes@.len(),
                forall|j: int| 0 <= j < i ==> r[j] != contact_view(c),
            decreases self.requested_nodes@.len() - i,
        {
            if same_contact(&self.requested_nodes[i], &c) {
                assert(r[i as int] == contact_view(c));
                assert(r.contains(contact_view(c)));
                return;
            }
            i = i + 1;
        }
        assert(!r.contains(contact_view(c)));
        self.requested_nodes.push(c);
        assert(contacts_view(self.requested_nodes@) =~= r.push(contact_view(c)));
        assert(self@.active == old(self)@.active);
    }

    /// Starts the endgame (see `endgame_spec`); returns the requests sent and the id under
    /// which the endgame is timed out.
    #[verifier::rlimit(50)]
    fn start_endgame_round(&mut self, table: &mut RoutingTable, now: i64) -> (r: (Vec<LookupRequest>, TransactionID))
        requires
            old(self).wf(),
            old(table).wf(),
        ensures
            final(self).wf(),
            final(table).wf(),
            final(self).action_value() == old(self).action_value(),
            endgame_spec(old(self)@, final(self)@, r.0@, r.1, old(table)@, final(table)@, now as int),
            r.1.value() / 0x100_0000 == old(self).action_value(),
            forall|i: int| 0 <= i < r.0@.len() ==> (#[trigger] r.0@[i]).trans_id.value() / 0x100_0000 == old(self).action_value(),
    {
        let ghost b = self@;
        let ghost t = table@;
        self.in_endgame = true;
        let endgame = self.id_generator.generate();
        let ghost first = seq![message_part(endgame)];
        let mut out: Vec<LookupRequest> = Vec::new();
        proof {
            assert(first.drop_last() =~= Seq::<u64>::empty());
            assert(issued(b.pending, first.drop_last()) == Some(b.pending));
            assert(issue_next(b.pending, message_part(endgame)) == Some(self@.pending));
            assert(issued(b.pending, first) == Some(self@.pending));
            assert(first + request_ids(out@) =~= first);
        }
        if self.recv_values {
            return (out, endgame);
        }
        let ghost s = b.sorted;
        let ghost pred = not_asked();
        let mut i: usize = 0;
        while i < self.all_sorted_nodes.len()
            invariant
                self.wf(),
                table.wf(),
                self.action_value() == old(self).action_value(),
                pred == not_asked(),
                !b.recv_values,
                s == b.sorted,
                self.all_sorted_nodes@.len() == s.len(),
                i <= s.len(),
                self@.sorted == all_asked(s.take(i as int)) + s.skip(i as int),
                request_contacts(out@) == entry_contacts(s.take(i as int).filter(pred)),
                self@.active == b.active + new_active(out@, entry_dists(s.take(i as int).filter(pred))),
                table@ == record_requests(t, contact_nodes(entry_contacts(s.take(i as int).filter(pred))), now as int),
                first == seq![message_part(endgame)],
                issued(b.pending, first + request_ids(out@)) == Some(self@.pending),
                self@.action == b.action,
                forall|j: int| 0 <= j < out@.len() ==> (#[trigger] out@[j]).trans_id.value() / 0x100_0000 == old(self).action_value(),
                self@.in_endgame,
                self@.table_id == b.table_id && self@.target_id == b.target_id && self@.recv_values == b.recv_values,
                self@.will_announce == b.will_announce && self@.tokens == b.tokens && self@.requested == b.requested,
            decreases s.len() - i,
        {
            let entry = self.all_sorted_nodes[i];
            let ghost x = s[i as int];
            assert(entry_view(entry) == x) by {
                assert(self@.sorted[i as int] == s.skip(i as int)[0]);
            }
            proof {
                assert(s.take(i + 1) =~= s.take(i as int).push(x));
                s.take(i as int).lemma_filter_push(x, pred);
            }
            if !entry.2 {
                let ghost u0 = s.take(i as int).filter(pred);
                let ghost pend0 = self@.pending;
                let trans_id = self.id_generator.generate();
                let ghost act0 = self@.active;
                let ghost out0 = out@;
                self.active_lookups.push((trans_id, entry.0));
                assert(self@.active =~= act0.push((trans_id, entry.0@)));
                out.push(LookupRequest { trans_id, contact: entry.1 });
                let probe = Node::as_bad(entry.1.0, entry.1.1);
                table.local_request_at(&probe, now);
                proof {
                    let u1 = s.take(i + 1).filter(pred);
                    assert(u1 =~= u0.push(x));
                    assert(entry_dists(u1) =~= entry_dists(u0).push(x.0));
                    assert(entry_contacts(u1) =~= entry_contacts(u0).push(x.1));
                    assert(new_active(out@, entry_dists(u1)) =~= new_active(out0, entry_dists(u0)).push((trans_id, x.0)));
                    assert(request_contacts(out@) =~= entry_contacts(u1));
                    assert(contact_nodes(entry_contacts(u1)) =~= contact_nodes(entry_contacts(u0)).push(probe@));
                    assert(contact_nodes(entry_contacts(u1)).drop_last() =~= contact_nodes(entry_contacts(u0)));
                    assert(first + request_ids(out@) =~= (first + request_ids(out0)).push(message_part(trans_id)));
                    lemma_issued_push(b.pending, first + request_ids(out0), message_part(trans_id));
                }
            } else {
                assert(s.take(i + 1).filter(pred) =~= s.take(i as int).filter(pred));
            }
            let ghost sorted0 = self@.sorted;
            self.all_sorted_nodes.set(i, (entry.0, entry.1, true));
            assert(self@.sorted =~= sorted0.update(i as int, (x.0, x.1, true)));
            assert(self@.sorted =~= all_asked(s.take(i + 1)) + s.skip(i + 1)) by {
                assert(all_asked(s.take(i + 1)) =~= all_asked(s.take(i as int)).push((x.0, x.1, true)));
                assert forall|j: int| 0 <= j < s.len() implies #[trigger] self@.sorted[j] == (all_asked(s.take(i + 1))
                    + s.skip(i + 1))[j] by {
                    if j < i {
                        assert(sorted0[j] == all_asked(s.take(i as int))[j]);
                    } else if j > i {
                        assert(sorted0[j] == s.skip(i as int)[j - i]);
                        assert(s.skip(i as int)[j - i] == s[j]);
                        assert(s.skip(i + 1)[j - i - 1] == s[j]);
                    }
                }
            }
            i = i + 1;
        }
        assert(s.take(s.len() as int) =~= s);
        assert(s.skip(s.len() as int) =~= Seq::<EntryView>::empty());
        assert(self@.sorted =~= all_asked(s));
        (out, endgame)
    }

    /// Sends a request to each of `nodes`, the answer to the `i`th to beat `dists[i]`: records
    /// them as outstanding and asked, and in the table (see `round_spec`). With no node to
    /// ask, nothing is outstanding any more and the round is completed; else it searches.
    fn start_request_round(
        &mut self,
        nodes: &Vec<Contact>,
        dists: &Vec<[u8; 20]>,
        table: &mut RoutingTable,
        now: i64,
    ) -> (r: (Vec<LookupRequest>, LookupStatus))
        requires
            old(self).wf(),
            old(table).wf(),
            nodes@.len() == dists@.len(),
        ensures
            final(self).wf(),
            final(table).wf(),
            final(self).action_value() == old(self).action_value(),
            round_spec(
                old(self)@,
                contacts_view(nodes@),
                dists@.map_values(|d: [u8; 20]| d@),
                final(self)@,
                r.0@,
                old(table)@,
                final(table)@,
                now as int,
            ),
            forall|i: int| 0 <= i < r.0@.len() ==> (#[trigger] r.0@[i]).trans_id.value() / 0x100_0000 == old(self).action_value(),
            r.1 == (if nodes@.len() == 0 {
                LookupStatus::Completed
            } else {
                LookupStatus::Searching
            }),
    {
        let ghost b = self@;
        let ghost t = table@;
        let ghost cs = contacts_view(nodes@);
        let ghost ds = dists@.map_values(|d: [u8; 20]| d@);
        let mut out: Vec<LookupRequest> = Vec::new();
        assert(request_ids(out@) =~= Seq::<u64>::empty());
        let mut i: usize = 0;
        while i < nodes.len()
            invariant
                self.wf(),
                table.wf(),
                self.action_value() == old(self).action_value(),
                nodes@.len() == dists@.len(),
                cs == contacts_view(nodes@),
                ds == dists@.map_values(|d: [u8; 20]| d@),
                i <= nodes@.len(),
                out@.len() == i,
                request_contacts(out@) == cs.take(i as int),
                self@.active == b.active + new_active(out@, ds),
                self@.requested == add_all_requested(b.requested, cs.take(i as int)),
                table@ == record_requests(t, contact_nodes(cs.take(i as int)), now as int),
                forall|j: int| 0 <= j < out@.len() ==> (#[trigger] out@[j]).trans_id.value() / 0x100_0000 == old(self).action_value(),
                self@.table_id == b.table_id && self@.target_id == b.target_id && self@.in_endgame == b.in_endgame,
                self@.recv_values == b.recv_values && self@.will_announce == b.will_announce,
                self@.tokens == b.tokens && self@.sorted == b.sorted,
                self@.action == b.action,
                issued(b.pending, request_ids(out@)) == Some(self@.pending),
            decreases nodes@.len() - i,
        {
            let c = nodes[i];
            let ghost outp = out@;
            let trans_id = self.id_generator.generate();
            let ghost act0 = self@.active;
            let ghost out0 = out@;
            self.active_lookups.push((trans_id, dists[i]));
            assert(self@.active =~= act0.push((trans_id, dists@[i as int]@)));
            out.push(LookupRequest { trans_id, contact: c });
            assert(new_active(out@, ds) =~= new_active(out0, ds).push((trans_id, ds[i as int])));
            self.mark_requested(c);
            let probe = Node::as_bad(c.0, c.1);
            table.local_request_at(&probe, now);
            proof {
                assert(cs.take(i + 1) =~= cs.take(i as int).push(cs[i as int]));
                assert(cs.take(i + 1).drop_last() =~= cs.take(i as int));
                assert(contact_nodes(cs.take(i + 1)) =~= contact_nodes(cs.take(i as int)).push(probe@));
                assert(contact_nodes(cs.take(i + 1)).drop_last() =~= contact_nodes(cs.take(i as int)));
                assert(request_contacts(out@) =~= cs.take(i + 1));
                assert(request_ids(out@) =~= request_ids(outp).push(message_part(trans_id)));
                lemma_issued_push(b.pending, request_ids(outp), message_part(trans_id));
                assert(self@.active =~= b.active + new_active(out@, ds));
            }
            i = i + 1;
        }
        assert(cs.take(i as int) =~= cs);
        if nodes.len() == 0 {
            self.active_lookups.clear();
            assert(self@.active =~= Seq::<(TransactionID, Seq<u8>)>::empty());
            (out, LookupStatus::Completed)
        } else {
            (out, LookupStatus::Searching)
        }
    }
}

/// Whether a lookup saw peers is changed only by an answer to one of its outstanding requests
/// that gives peers and no nodes: an answer that holds nodes, whether or not it also holds
/// peers, leaves it as it was (so the endgame still asks every node not yet asked), and an
/// answer with peers alone sets it.
pub proof fn lemma_response_recv_values(
    b: LookupView,
    c: (Seq<u8>, NodeAddr),
    tid: TransactionID,
    nodes: Option<Seq<(Seq<u8>, NodeAddr)>>,
    values_given: bool,
    token: Option<Seq<u8>>,
    a: LookupView,
    rs: Seq<LookupRequest>,
    endgame: Option<TransactionID>,
    t: TableView,
    t2: TableView,
    now: int,
)
    requires
        response_spec(b, c, tid, nodes, values_given, token, a, rs, endgame, t, t2, now),
    ensures
        nodes is Some ==> a.recv_values == b.recv_values,
        !values_given ==> a.recv_values == b.recv_values,
        active_index(b.active, tid) is Some && values_given && nodes is None ==> a.recv_values,
{
}

/// Placing `c` from slot `k` on changes at most slots from `k` on, each only to `c`, and only
/// a free slot or one whose contact is further from `target` than `c`; and `c` is placed when
/// such a slot exists from `k` on.
proof fn lemma_place_closest_from(p: Seq<Option<(Seq<u8>, NodeAddr)>>, target: Seq<u8>, c: (Seq<u8>, NodeAddr), k: int)
    requires
        0 <= k,
    ensures
        place_closest(p, target, c, k).len() == p.len(),
        forall|j: int|
            0 <= j < p.len() ==> place_closest(p, target, c, k)[j] == p[j] || (k <= j && place_closest(p, target, c, k)[j]
                == Some(c) && (p[j] is None || lex_lt(distance(target, c.0), distance(target, (p[j]->0).0)))),
        (exists|j: int| k <= j < p.len() && (p[j] is None || lex_lt(distance(target, c.0), distance(target, (p[j]->0).0))))
            ==> exists|j: int| 0 <= j < p.len() && place_closest(p, target, c, k)[j] == Some(c),
    decreases p.len() - k,
{
    if k < p.len() {
        match p[k] {
            None => {
                assert(place_closest(p, target, c, k)[k] == Some(c));
            },
            Some(o) => {
                if lex_lt(distance(target, c.0), distance(target, o.0)) {
                    assert(place_closest(p, target, c, k)[k] == Some(c));
                } else {
                    lemma_place_closest_from(p, target, c, k + 1);
                    if exists|j: int| k <= j < p.len() && (p[j] is None || lex_lt(distance(target, c.0), distance(target, (p[j]->0).0))) {
                        let j = choose|j: int| k <= j < p.len() && (p[j] is None || lex_lt(distance(target, c.0), distance(target, (p[j]->0).0)));
                        assert(j != k);
                    }
                }
            },
        }
    }
}

/// Placing a contact `c` in the slots `p` (as each contact of an answer is placed in turn)
/// only ever fills a free slot or replaces a contact further from `target` than `c`, with
/// `c`, and leaves every other slot as it was; in particular a contact no further than `c`
/// stays. And `c` is placed whenever a slot is free or holds a contact further than `c`.
pub proof fn lemma_place_closest(p: Seq<Option<(Seq<u8>, NodeAddr)>>, target: Seq<u8>, c: (Seq<u8>, NodeAddr))
    ensures
        place_closest(p, target, c, 0).len() == p.len(),
        forall|j: int|
            0 <= j < p.len() ==> (#[trigger] place_closest(p, target, c, 0)[j]) == p[j] || (place_closest(p, target, c, 0)[j]
                == Some(c) && (p[j] is None || lex_lt(distance(target, c.0), distance(target, (p[j]->0).0)))),
        (exists|j: int| 0 <= j < p.len() && (p[j] is None || lex_lt(distance(target, c.0), distance(target, (p[j]->0).0))))
            ==> exists|j: int| 0 <= j < p.len() && #[trigger] place_closest(p, target, c, 0)[j] == Some(c),
{
    lemma_place_closest_from(p, target, c, 0);
}

/// No contact of `cs` is closer to `target` than `x`.
pub open spec fn none_closer(cs: Seq<(Seq<u8>, NodeAddr)>, target: Seq<u8>, x: (Seq<u8>, NodeAddr)) -> bool {
    forall|i: int| 0 <= i < cs.len() ==> !lex_lt(distance(target, #[trigger] cs[i].0), distance(target, x.0))
}

/// The contacts picked from an answer's contacts `cs` for the next round: three slots, each
/// free or holding one of `cs`; and when `cs` is not empty, a closest of them to `target`
/// (one no other is closer than) is always picked.
pub proof fn lemma_pick_iterate(cs: Seq<(Seq<u8>, NodeAddr)>, target: Seq<u8>)
    ensures
        pick_iterate(cs, target).len() == ITERATIVE_PICK_NUM,
        forall|j: int| 0 <= j < pick_iterate(cs, target).len() ==> (#[trigger] pick_iterate(cs, target)[j] matches Some(x)
            ==> cs.contains(x)),
        cs.len() > 0 ==> exists|j: int|
            0 <= j < ITERATIVE_PICK_NUM && (#[trigger] pick_iterate(cs, target)[j]) is Some && none_closer(
                cs,
                target,
                pick_iterate(cs, target)[j]->0,
            ),
    decreases cs.len(),
{
    if cs.len() > 0 {
        let prev = cs.drop_last();
        let c = cs.last();
        let p = pick_iterate(prev, target);
        let r = pick_iterate(cs, target);
        lemma_pick_iterate(prev, target);
        lemma_place_closest_from(p, target, c, 0);
        assert(r == place_closest(p, target, c, 0));
        let dc = distance(target, c.0);
        assert(cs[cs.len() - 1] == c);
        assert forall|j: int| 0 <= j < r.len() implies (#[trigger] r[j] matches Some(x) ==> cs.contains(x)) by {
            if r[j] != p[j] {
                assert(cs.contains(c));
            } else if let Some(x) = p[j] {
                assert(prev.contains(x));
                let i = choose|i: int| 0 <= i < prev.len() && prev[i] == x;
                assert(cs[i] == x);
            }
        }
        crate::bencode::order::lemma_lex_irreflexive(dc);
        if prev.len() == 0 {
            assert(p[0] is None);
            let j = choose|j: int| 0 <= j < p.len() && place_closest(p, target, c, 0)[j] == Some(c);
            assert(r[j] is Some && none_closer(cs, target, r[j]->0));
        } else {
            let j0 = choose|j: int| 0 <= j < ITERATIVE_PICK_NUM && (#[trigger] p[j]) is Some && none_closer(prev, target, p[j]->0);
            let m = p[j0]->0;
            let dm = distance(target, m.0);
            if lex_lt(dc, dm) {
                let j = choose|j: int| 0 <= j < p.len() && place_closest(p, target, c, 0)[j] == Some(c);
                assert forall|i: int| 0 <= i < cs.len() implies !lex_lt(distance(target, #[trigger] cs[i].0), dc) by {
                    if i < prev.len() {
                        assert(prev[i] == cs[i]);
                        let di = distance(target, cs[i].0);
                        assert(!lex_lt(di, dm));
                        if lex_lt(di, dc) {
                            crate::bencode::order::lemma_lex_transitive(di, dc, dm);
                        }
                    }
                }
                assert(r[j] is Some && none_closer(cs, target, r[j]->0));
            } else {
                assert(r[j0] == p[j0]);
                assert forall|i: int| 0 <= i < cs.len() implies !lex_lt(distance(target, #[trigger] cs[i].0), dm) by {
                    if i < prev.len() {
                        assert(prev[i] == cs[i]);
                    }
                }
                assert(r[j0] is Some && none_closer(cs, target, r[j0]->0));
            }
        }
    }
}

} // verus!
