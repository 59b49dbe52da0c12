//! Storage of announced contacts: for each info hash the addresses of peers that announced
//! it, each kept for a day after its last announce, and at most `MAX_ITEMS_STORED` in all.
use vstd::prelude::*;

use crate::dht::routing::node::{now_millis, same_addr, same_id, NodeAddr, NodeId};

verus! {

/// Most contacts stored at once.
pub const MAX_ITEMS_STORED: usize = 500;
/// Hours a contact is kept after its last announce.
pub const EXPIRATION_TIME_HOURS: i64 = 24;
/// Milliseconds a contact is kept after its last announce.
pub const EXPIRATION_TIME_MILLIS: i64 = 86_400_000;

/// Model of when a contact was announced.
pub struct ExpirationView {
    /// Address of the peer.
    pub address: NodeAddr,
    /// Info hash announced.
    pub info_hash: Seq<u8>,
    /// When it was announced, in milliseconds.
    pub inserted: int,
}

/// Whether an announce made at `inserted` has expired at time `now`.
pub open spec fn expired_at(inserted: int, now: int) -> bool {
    now - inserted >= EXPIRATION_TIME_MILLIS
}

/// When a contact was announced.
#[derive(Copy, Clone, Debug)]
pub struct ItemExpiration {
    address: NodeAddr,
    inserted: i64,
    info_hash: NodeId,
}

impl View for ItemExpiration {
    type V = ExpirationView;

    closed spec fn view(&self) -> ExpirationView {
        ExpirationView { address: self.address, info_hash: self.info_hash@, inserted: self.inserted as int }
    }
}

impl ItemExpiration {
    /// An announce of `info_hash` by `address` at time `inserted`.
    pub fn new_at(info_hash: NodeId, address: NodeAddr, inserted: i64) -> (e: ItemExpiration)
        ensures
            e@ == (ExpirationView { address, info_hash: info_hash@, inserted: inserted as int }),
    {
        ItemExpiration { address, inserted, info_hash }
    }

    /// An announce of `info_hash` by `address` made now.
    pub fn new(info_hash: NodeId, address: NodeAddr) -> (e: ItemExpiration)
        ensures
            e@.address == address,
            e@.info_hash == info_hash@,
    {
        ItemExpiration::new_at(info_hash, address, now_millis())
    }

    /// Whether the announce has expired at time `now`: a day or more has passed.
    pub fn is_expired(&self, now: i64) -> (r: bool)
        ensures
            r == expired_at(self@.inserted, now as int),
    {
        (now as i128) - (self.inserted as i128) >= EXPIRATION_TIME_MILLIS as i128
    }

    /// The info hash announced.
    pub fn info_hash(&self) -> (r: NodeId)
        ensures
            r@ == self@.info_hash,
    {
        self.info_hash
    }

    /// The address of the peer.
    pub fn address(&self) -> (r: NodeAddr)
        ensures
            r == self@.address,
    {
        self.address
    }
}

/// Models of a sequence of announces.
pub open spec fn expirations_view(s: Seq<ItemExpiration>) -> Seq<ExpirationView> {
    s.map_values(|e: ItemExpiration| e@)
}

/// Models of the contact lists.
pub open spec fn contacts_view(s: Seq<(NodeId, Vec<NodeAddr>)>) -> Seq<(Seq<u8>, Seq<NodeAddr>)> {
    s.map_values(|e: (NodeId, Vec<NodeAddr>)| (e.0@, e.1@))
}

/// Position of the list for info hash `h`, if there is one.
pub open spec fn hash_index(s: Seq<(Seq<u8>, Seq<NodeAddr>)>, h: Seq<u8>) -> Option<int>
    decreases s.len(),
{
    if s.len() == 0 {
        None
    } else if s[0].0 == h {
        Some(0)
    } else {
        match hash_index(s.drop_first(), h) {
            Some(i) => Some(i + 1),
            None => None,
        }
    }
}

/// `hash_index` finds the first list for `h`.
pub proof fn lemma_hash_index(s: Seq<(Seq<u8>, Seq<NodeAddr>)>, h: Seq<u8>)
    ensures
        hash_index(s, h) matches Some(i) ==> 0 <= i < s.len() && s[i].0 == h && forall|j: int| 0 <= j < i ==> (#[trigger] s[j]).0 != h,
        hash_index(s, h) is None ==> forall|j: int| 0 <= j < s.len() ==> (#[trigger] s[j]).0 != h,
    decreases s.len(),
{
    if s.len() > 0 {
        lemma_hash_index(s.drop_first(), h);
        assert forall|j: int| 1 <= j < s.len() implies s[j] == #[trigger] s.drop_first()[j - 1] by {}
        if s[0].0 != h {
            if let Some(i) = hash_index(s.drop_first(), h) {
                assert forall|j: int| 0 <= j < i + 1 implies (#[trigger] s[j]).0 != h by {
                    if j > 0 {
                        assert(s[j] == s.drop_first()[j - 1]);
                    }
                }
            } else {
                assert forall|j: int| 0 <= j < s.len() implies (#[trigger] s[j]).0 != h by {
                    if j > 0 {
                        assert(s[j] == s.drop_first()[j - 1]);
                    }
                }
            }
        }
    }
}

/// The addresses stored for `h`.
pub open spec fn contacts_of(s: Seq<(Seq<u8>, Seq<NodeAddr>)>, h: Seq<u8>) -> Seq<NodeAddr> {
    match hash_index(s, h) {
        Some(i) => s[i].1,
        None => Seq::empty(),
    }
}

/// Whether an address is not `x`.
pub open spec fn other_addr(x: NodeAddr) -> spec_fn(NodeAddr) -> bool {
    |a: NodeAddr| a != x
}

/// Whether an announce is not one of `a` for `h`.
pub open spec fn other_contact(a: NodeAddr, h: Seq<u8>) -> spec_fn(ExpirationView) -> bool {
    |x: ExpirationView| !(x.address == a && x.info_hash == h)
}

/// The lists after taking out the announce `e`: its address leaves the list of its info
/// hash, and a list left empty goes.
pub open spec fn drop_expiration(s: Seq<(Seq<u8>, Seq<NodeAddr>)>, e: ExpirationView) -> Seq<(Seq<u8>, Seq<NodeAddr>)> {
    match hash_index(s, e.info_hash) {
        Some(i) => {
            let rest = s[i].1.filter(other_addr(e.address));
            if rest.len() == 0 {
                s.remove(i)
            } else {
                s.update(i, (e.info_hash, rest))
            }
        },
        None => s,
    }
}

/// The lists after taking out the announces `es`, in order.
pub open spec fn drop_expirations(s: Seq<(Seq<u8>, Seq<NodeAddr>)>, es: Seq<ExpirationView>) -> Seq<(Seq<u8>, Seq<NodeAddr>)>
    decreases es.len(),
{
    if es.len() == 0 {
        s
    } else {
        drop_expiration(drop_expirations(s, es.drop_last()), es.last())
    }
}

/// Number of leading announces of `es` that have expired at time `now`.
pub open spec fn leading_expired(es: Seq<ExpirationView>, now: int) -> nat
    decreases es.len(),
{
    if es.len() == 0 {
        0
    } else if expired_at(es[0].inserted, now) {
        1 + leading_expired(es.drop_first(), now)
    } else {
        0
    }
}

/// Model of an announce storage: the contact lists, and the announces oldest first.
pub struct StorageView {
    /// For each info hash, the addresses announced.
    pub contacts: Seq<(Seq<u8>, Seq<NodeAddr>)>,
    /// The announces, oldest first.
    pub expires: Seq<ExpirationView>,
}

/// The storage after removing, at time `now`, the announces that have expired, oldest first.
pub open spec fn remove_expired(v: StorageView, now: int) -> StorageView {
    let k = leading_expired(v.expires, now) as int;
    StorageView { contacts: drop_expirations(v.contacts, v.expires.take(k)), expires: v.expires.skip(k) }
}

/// Whether `a` is stored for `h`.
pub open spec fn has_contact(s: Seq<(Seq<u8>, Seq<NodeAddr>)>, h: Seq<u8>, a: NodeAddr) -> bool {
    contacts_of(s, h).contains(a)
}

/// The lists with `a` added to the list of `h` (a new list at the end if there is none).
pub open spec fn insert_contact_spec(s: Seq<(Seq<u8>, Seq<NodeAddr>)>, h: Seq<u8>, a: NodeAddr) -> Seq<(Seq<u8>, Seq<NodeAddr>)> {
    match hash_index(s, h) {
        Some(i) => s.update(i, (h, s[i].1.push(a))),
        None => s.push((h, seq![a])),
    }
}

/// What announcing `a` for `h` at time `now` (recorded as made at `inserted`) does, and
/// whether it was stored: expired announces go first; a contact already stored is renewed
/// (its announce moves to the end); a new one is stored while there is room.
pub open spec fn add_spec(v: StorageView, h: Seq<u8>, a: NodeAddr, now: int, inserted: int) -> (bool, StorageView) {
    let v1 = remove_expired(v, now);
    let e = ExpirationView { address: a, info_hash: h, inserted };
    if has_contact(v1.contacts, h, a) {
        (
            true,
            StorageView {
                contacts: v1.contacts,
                expires: v1.expires.filter(other_contact(a, h)).push(e),
            },
        )
    } else if v1.expires.len() < MAX_ITEMS_STORED {
        (true, StorageView { contacts: insert_contact_spec(v1.contacts, h, a), expires: v1.expires.push(e) })
    } else {
        (false, v1)
    }
}

/// Stores the contacts announced to us.
pub struct AnnounceStorage {
    storage: Vec<(NodeId, Vec<NodeAddr>)>,
    expires: Vec<ItemExpiration>,
}

impl View for AnnounceStorage {
    type V = StorageView;

    closed spec fn view(&self) -> StorageView {
        StorageView { contacts: contacts_view(self.storage@), expires: expirations_view(self.expires@) }
    }
}

/// The number of leading expired announces is the first position holding one that has not
/// expired (or the length).
proof fn lemma_leading_expired(es: Seq<ExpirationView>, now: int, k: int)
    requires
        0 <= k <= es.len(),
        forall|j: int| 0 <= j < k ==> expired_at(#[trigger] es[j].inserted, now),
        k == es.len() || !expired_at(es[k].inserted, now),
    ensures
        leading_expired(es, now) == k,
    decreases k,
{
    if k > 0 {
        let t = es.drop_first();
        assert forall|j: int| 0 <= j < k - 1 implies expired_at(#[trigger] t[j].inserted, now) by {
            assert(t[j] == es[j + 1]);
        }
        if k - 1 < t.len() {
            assert(t[k - 1] == es[k]);
        }
        lemma_leading_expired(t, now, k - 1);
    } else if es.len() > 0 {
    }
}

/// Appending an announce appends its model.
proof fn lemma_expirations_push(s: Seq<ItemExpiration>, e: ItemExpiration)
    ensures
        expirations_view(s.push(e)) == expirations_view(s).push(e@),
{
    assert(expirations_view(s.push(e)) =~= expirations_view(s).push(e@));
}

/// Appending a list appends its model.
proof fn lemma_contacts_push(s: Seq<(NodeId, Vec<NodeAddr>)>, e: (NodeId, Vec<NodeAddr>))
    ensures
        contacts_view(s.push(e)) == contacts_view(s).push((e.0@, e.1@)),
{
    assert(contacts_view(s.push(e)) =~= contacts_view(s).push((e.0@, e.1@)));
}

/// Position of the list for `h`, if any.
fn find_hash(storage: &Vec<(NodeId, Vec<NodeAddr>)>, h: &NodeId) -> (r: Option<usize>)
    ensures
        match hash_index(contacts_view(storage@), h@) {
            Some(i) => r == Some(i as usize),
            None => r is None,
        },
        r matches Some(i) ==> i < storage@.len() && contacts_view(storage@)[i as int].0 == h@,
{
    let ghost s = contacts_view(storage@);
    proof {
        lemma_hash_index(s, h@);
    }
    let mut i: usize = 0;
    while i < storage.len()
        invariant
            s == contacts_view(storage@),
            i <= storage@.len(),
            forall|j: int| 0 <= j < i ==> (#[trigger] s[j]).0 != h@,
            hash_index(s, h@) matches Some(k) ==> 0 <= k < s.len() && s[k].0 == h@ && forall|j: int|
                0 <= j < k ==> (#[trigger] s[j]).0 != h@,
            hash_index(s, h@) is None ==> forall|j: int| 0 <= j < s.len() ==> (#[trigger] s[j]).0 != h@,
        decreases storage@.len() - i,
    {
        assert(s[i as int] == (storage@[i as int].0@, storage@[i as int].1@));
        if same_id(&storage[i].0, h) {
            assert(s[i as int].0 == h@);
            return Some(i);
        }
        i = i + 1;
    }
    None
}

/// Whether `a` is in `list`.
fn contains_addr(list: &Vec<NodeAddr>, a: &NodeAddr) -> (r: bool)
    ensures
        r == list@.contains(*a),
{
    let mut i: usize = 0;
    while i < list.len()
        invariant
            i <= list@.len(),
            forall|j: int| 0 <= j < i ==> list@[j] != *a,
        decreases list@.len() - i,
    {
        if same_addr(&list[i], a) {
            assert(list@[i as int] == *a);
            return true;
        }
        i = i + 1;
    }
    false
}

/// Takes out the announce `e` from the lists (see `drop_expiration`).
fn drop_expiration_exec(storage: &mut Vec<(NodeId, Vec<NodeAddr>)>, e: &ItemExpiration)
    ensures
        contacts_view(final(storage)@) == drop_expiration(contacts_view(old(storage)@), e@),
{
    let ghost s = contacts_view(storage@);
    proof {
        lemma_hash_index(s, e@.info_hash);
    }
    match find_hash(storage, &e.info_hash) {
        None => {},
        Some(i) => {
            let ghost pred = other_addr(e.address);
            let mut rest: Vec<NodeAddr> = Vec::new();
            let mut k: usize = 0;
            let n = storage[i].1.len();
            while k < n
                invariant
                    s == contacts_view(storage@),
                    i < storage@.len(),
                    n == storage@[i as int].1@.len(),
                    k <= n,
                    pred == other_addr(e.address),
                    rest@ == storage@[i as int].1@.subrange(0, k as int).filter(pred),
                decreases n - k,
            {
                let ghost l = storage@[i as int].1@;
                assert(l.subrange(0, k + 1) =~= l.subrange(0, k as int).push(l[k as int]));
                proof {
                    l.subrange(0, k as int).lemma_filter_push(l[k as int], pred);
                }
                let a = storage[i].1[k];
                if !same_addr(&a, &e.address) {
                    rest.push(a);
                }
                k = k + 1;
            }
            assert(storage@[i as int].1@.subrange(0, n as int) =~= storage@[i as int].1@);
            assert(s[i as int] == (storage@[i as int].0@, storage@[i as int].1@));
            if rest.len() == 0 {
                storage.remove(i);
                assert(contacts_view(storage@) =~= s.remove(i as int));
            } else {
                storage.set(i, (e.info_hash, rest));
                assert(contacts_view(storage@) =~= s.update(i as int, (e@.info_hash, rest@)));
            }
        },
    }
}

impl AnnounceStorage {
    /// An empty storage.
    pub fn new() -> (s: AnnounceStorage)
        ensures
            s@.contacts == Seq::<(Seq<u8>, Seq<NodeAddr>)>::empty(),
            s@.expires == Seq::<ExpirationView>::empty(),
    {
        let s = AnnounceStorage { storage: Vec::new(), expires: Vec::new() };
        assert(s@.contacts =~= Seq::<(Seq<u8>, Seq<NodeAddr>)>::empty());
        assert(s@.expires =~= Seq::<ExpirationView>::empty());
        s
    }

    /// Removes the announces that have expired at time `now` (see `remove_expired`).
    fn remove_expired_items(&mut self, now: i64)
        ensures
            final(self)@ == remove_expired(old(self)@, now as int),
    {
        let ghost es = self@.expires;
        let ghost s0 = self@.contacts;
        let mut k: usize = 0;
        while k < self.expires.len() && self.expires[k].is_expired(now)
            invariant
                es == expirations_view(self.expires@),
                k <= self.expires@.len(),
                forall|j: int| 0 <= j < k ==> expired_at(#[trigger] es[j].inserted, now as int),
            decreases self.expires@.len() - k,
        {
            k = k + 1;
        }
        proof {
            lemma_leading_expired(es, now as int, k as int);
        }
        let mut j: usize = 0;
        while j < k
            invariant
                es == expirations_view(self.expires@),
                k <= self.expires@.len(),
                j <= k,
                contacts_view(self.storage@) == drop_expirations(s0, es.take(j as int)),
            decreases k - j,
        {
            let e = self.expires[j];
            drop_expiration_exec(&mut self.storage, &e);
            proof {
                assert(es.take(j + 1).drop_last() =~= es.take(j as int));
                assert(es.take(j + 1).last() == e@);
            }
            j = j + 1;
        }
        let mut rest: Vec<ItemExpiration> = Vec::new();
        let mut i = k;
        while i < self.expires.len()
            invariant
                es == expirations_view(self.expires@),
                k <= i <= self.expires@.len(),
                expirations_view(rest@) == es.subrange(k as int, i as int),
            decreases self.expires@.len() - i,
        {
            proof {
                lemma_expirations_push(rest@, self.expires@[i as int]);
            }
            rest.push(self.expires[i]);
            i = i + 1;
            assert(expirations_view(rest@) =~= es.subrange(k as int, i as int));
        }
        self.expires = rest;
        assert(es.subrange(k as int, es.len() as int) =~= es.skip(k as int));
    }

    /// Stores `address` for `info_hash` if there is room: `Some(true)` when it was stored
    /// already, `Some(false)` when it is stored now, `None` when the storage is full.
    fn insert_contact(&mut self, info_hash: NodeId, address: NodeAddr) -> (r: Option<bool>)
        ensures
            has_contact(old(self)@.contacts, info_hash@, address) ==> r == Some(true) && final(self)@ == old(self)@,
            !has_contact(old(self)@.contacts, info_hash@, address) && old(self)@.expires.len() < MAX_ITEMS_STORED ==> r
                == Some(false) && final(self)@ == (StorageView {
                contacts: insert_contact_spec(old(self)@.contacts, info_hash@, address),
                expires: old(self)@.expires,
            }),
            !has_contact(old(self)@.contacts, info_hash@, address) && old(self)@.expires.len() >= MAX_ITEMS_STORED ==> r
                is None && final(self)@ == old(self)@,
    {
        let ghost s = self@.contacts;
        proof {
            lemma_hash_index(s, info_hash@);
        }
        let idx = find_hash(&self.storage, &info_hash);
        let already = match idx {
            Some(i) => {
                assert(s[i as int] == (self.storage@[i as int].0@, self.storage@[i as int].1@));
                contains_addr(&self.storage[i].1, &address)
            },
            None => false,
        };
        if already {
            return Some(true);
        }
        if self.expires.len() >= MAX_ITEMS_STORED {
            return None;
        }
        match idx {
            Some(i) => {
                let mut list: Vec<NodeAddr> = Vec::new();
                let n = self.storage[i].1.len();
                let mut k: usize = 0;
                while k < n
                    invariant
                        i < self.storage@.len(),
                        n == self.storage@[i as int].1@.len(),
                        k <= n,
                        list@ == self.storage@[i as int].1@.subrange(0, k as int),
                    decreases n - k,
                {
                    list.push(self.storage[i].1[k]);
                    k = k + 1;
                    assert(list@ =~= self.storage@[i as int].1@.subrange(0, k as int));
                }
                assert(list@ =~= self.storage@[i as int].1@);
                list.push(address);
                assert(s[i as int] == (self.storage@[i as int].0@, self.storage@[i as int].1@));
                self.storage.set(i, (info_hash, list));
                assert(contacts_view(self.storage@) =~= s.update(i as int, (info_hash@, s[i as int].1.push(address))));
            },
            None => {
                let list = vec![address];
                assert(list@ =~= seq![address]);
                proof {
                    lemma_contacts_push(self.storage@, (info_hash, list));
                }
                self.storage.push((info_hash, list));
                assert(contacts_view(self.storage@) =~= s.push((info_hash@, seq![address])));
            },
        }
        Some(false)
    }

    /// Announces `address` for `info_hash` at time `now`, recording the announce as made at
    /// `inserted`; returns whether it was stored (see `add_spec`).
    pub fn add_with(&mut self, info_hash: NodeId, address: NodeAddr, now: i64, inserted: i64) -> (r: bool)
        ensures
            (r, final(self)@) == add_spec(old(self)@, info_hash@, address, now as int, inserted as int),
    {
        self.remove_expired_items(now);
        let item_expiration = ItemExpiration::new_at(info_hash, address, inserted);
        let ghost v1 = self@;
        match self.insert_contact(info_hash, address) {
            Some(true) => {
                let ghost pred = other_contact(address, info_hash@);
                let mut kept: Vec<ItemExpiration> = Vec::new();
                let mut i: usize = 0;
                while i < self.expires.len()
                    invariant
                        v1.expires == expirations_view(self.expires@),
                        i <= self.expires@.len(),
                        pred == other_contact(address, info_hash@),
                        expirations_view(kept@) == v1.expires.subrange(0, i as int).filter(pred),
                    decreases self.expires@.len() - i,
                {
                    let ghost sub = v1.expires.subrange(0, i as int);
                    assert(v1.expires.subrange(0, i + 1) =~= sub.push(v1.expires[i as int]));
                    proof {
                        sub.lemma_filter_push(v1.expires[i as int], pred);
                    }
                    let x = self.expires[i];
                    if !(same_addr(&x.address, &address) && same_id(&x.info_hash, &info_hash)) {
                        proof {
                            lemma_expirations_push(kept@, x);
                        }
                        kept.push(x);
                        assert(expirations_view(kept@) =~= v1.expires.subrange(0, i + 1).filter(pred));
                    }
                    i = i + 1;
                }
                assert(v1.expires.subrange(0, i as int) =~= v1.expires);
                proof {
                    lemma_expirations_push(kept@, item_expiration);
                }
                kept.push(item_expiration);
                self.expires = kept;
                assert(self@.expires =~= v1.expires.filter(pred).push(item_expiration@));
                true
            },
            Some(false) => {
                proof {
                    lemma_expirations_push(self.expires@, item_expiration);
                }
                self.expires.push(item_expiration);
                assert(self@.expires =~= v1.expires.push(item_expiration@));
                true
            },
            None => false,
        }
    }

    /// Announces `address` for `info_hash` at time `now`, recording the announce as made now;
    /// returns whether it was stored.
    pub fn add(&mut self, info_hash: NodeId, address: NodeAddr, now: i64) -> (r: bool)
        ensures
            exists|inserted: i64| (r, final(self)@) == #[trigger] add_spec(old(self)@, info_hash@, address, now as int, inserted as int),
    {
        self.add_with(info_hash, address, now, now_millis())
    }

    /// Announces `address` for `info_hash` now; returns whether it was stored.
    pub fn add_item(&mut self, info_hash: NodeId, address: NodeAddr) -> (r: bool)
        ensures
            exists|now: i64, inserted: i64| (r, final(self)@) == #[trigger] add_spec(old(self)@, info_hash@, address, now as int, inserted as int),
    {
        let now = now_millis();
        self.add_with(info_hash, address, now, now_millis())
    }

    /// The addresses stored for `info_hash` at time `now`, after removing the announces that
    /// have expired.
    pub fn find(&mut self, info_hash: &NodeId, now: i64) -> (r: Vec<NodeAddr>)
        ensures
            final(self)@ == remove_expired(old(self)@, now as int),
            r@ == contacts_of(final(self)@.contacts, info_hash@),
    {
        self.remove_expired_items(now);
        let ghost s = self@.contacts;
        proof {
            lemma_hash_index(s, info_hash@);
        }
        match find_hash(&self.storage, info_hash) {
            Some(i) => {
                assert(s[i as int] == (self.storage@[i as int].0@, self.storage@[i as int].1@));
                let mut out: Vec<NodeAddr> = Vec::new();
                let n = self.storage[i].1.len();
                let mut k: usize = 0;
                while k < n
                    invariant
                        i < self.storage@.len(),
                        s == contacts_view(self.storage@),
                        n == self.storage@[i as int].1@.len(),
                        k <= n,
                        out@ == self.storage@[i as int].1@.subrange(0, k as int),
                    decreases n - k,
                {
                    out.push(self.storage[i].1[k]);
                    k = k + 1;
                    assert(out@ =~= self.storage@[i as int].1@.subrange(0, k as int));
                }
                assert(out@ =~= self.storage@[i as int].1@);
                out
            },
            None => Vec::new(),
        }
    }

    /// The addresses stored for `info_hash` now.
    pub fn find_items(&mut self, info_hash: &NodeId) -> (r: Vec<NodeAddr>)
        ensures
            exists|now: i64| #[trigger] remove_expired(old(self)@, now as int) == final(self)@,
            r@ == contacts_of(final(self)@.contacts, info_hash@),
    {
        self.find(info_hash, now_millis())
    }
}


// ---------------------------------------------------------------------------
// Reading back an announce
// ---------------------------------------------------------------------------

/// The list for `h` is the first one with that key.
proof fn lemma_hash_index_at(s: Seq<(Seq<u8>, Seq<NodeAddr>)>, h: Seq<u8>, j: int)
    requires
        0 <= j < s.len(),
        s[j].0 == h,
        forall|k: int| 0 <= k < j ==> (#[trigger] s[k]).0 != h,
    ensures
        hash_index(s, h) == Some(j),
{
    lemma_hash_index(s, h);
    if let Some(i) = hash_index(s, h) {
        if i < j {
            assert(s[i].0 != h);
        }
        if j < i {
            assert(s[j].0 != h);
        }
    }
}

/// Taking out an announce of another contact keeps `a` stored for `h`.
proof fn lemma_drop_other_keeps_contact(s: Seq<(Seq<u8>, Seq<NodeAddr>)>, e: ExpirationView, h: Seq<u8>, a: NodeAddr)
    requires
        has_contact(s, h, a),
        !(e.address == a && e.info_hash == h),
    ensures
        has_contact(drop_expiration(s, e), h, a),
{
    lemma_hash_index(s, h);
    lemma_hash_index(s, e.info_hash);
    let j = hash_index(s, h)->0;
    if let Some(i) = hash_index(s, e.info_hash) {
        let rest = s[i].1.filter(other_addr(e.address));
        if i == j {
            let k = choose|k: int| 0 <= k < s[j].1.len() && s[j].1[k] == a;
            s[i].1.lemma_filter_contains(other_addr(e.address), k);
            assert(rest.contains(a));
            assert(rest.len() > 0);
            let t = s.update(i, (e.info_hash, rest));
            assert forall|k2: int| 0 <= k2 < j implies (#[trigger] t[k2]).0 != h by {
                assert(t[k2] == s[k2]);
            }
            lemma_hash_index_at(t, h, j);
        } else {
            assert(i != j);
            if rest.len() == 0 {
                let t = s.remove(i);
                if i < j {
                    assert(t[j - 1] == s[j]);
                    assert forall|k2: int| 0 <= k2 < j - 1 implies (#[trigger] t[k2]).0 != h by {
                        if k2 < i {
                            assert(t[k2] == s[k2]);
                        } else {
                            assert(t[k2] == s[k2 + 1]);
                        }
                    }
                    lemma_hash_index_at(t, h, j - 1);
                } else {
                    assert(t[j] == s[j]);
                    assert forall|k2: int| 0 <= k2 < j implies (#[trigger] t[k2]).0 != h by {
                        assert(t[k2] == s[k2]);
                    }
                    lemma_hash_index_at(t, h, j);
                }
            } else {
                let t = s.update(i, (e.info_hash, rest));
                assert(t[j] == s[j]);
                assert forall|k2: int| 0 <= k2 < j implies (#[trigger] t[k2]).0 != h by {
                    if k2 != i {
                        assert(t[k2] == s[k2]);
                    }
                }
                lemma_hash_index_at(t, h, j);
            }
        }
    }
}

/// Taking out announces of other contacts keeps `a` stored for `h`.
proof fn lemma_drop_others_keep_contact(
    s: Seq<(Seq<u8>, Seq<NodeAddr>)>,
    es: Seq<ExpirationView>,
    h: Seq<u8>,
    a: NodeAddr,
)
    requires
        has_contact(s, h, a),
        forall|i: int| 0 <= i < es.len() ==> !((#[trigger] es[i]).address == a && es[i].info_hash == h),
    ensures
        has_contact(drop_expirations(s, es), h, a),
    decreases es.len(),
{
    if es.len() > 0 {
        lemma_drop_others_keep_contact(s, es.drop_last(), h, a);
        lemma_drop_other_keeps_contact(drop_expirations(s, es.drop_last()), es.last(), h, a);
    }
}

/// The announces counted by `leading_expired` have expired, and the one after them has not.
proof fn lemma_leading_expired_bounds(es: Seq<ExpirationView>, now: int)
    ensures
        leading_expired(es, now) <= es.len(),
        forall|i: int| 0 <= i < leading_expired(es, now) ==> expired_at((#[trigger] es[i]).inserted, now),
        leading_expired(es, now) < es.len() ==> !expired_at(es[leading_expired(es, now) as int].inserted, now),
    decreases es.len(),
{
    if es.len() > 0 && expired_at(es[0].inserted, now) {
        let rest = es.drop_first();
        lemma_leading_expired_bounds(rest, now);
        assert forall|i: int| 0 <= i < leading_expired(es, now) implies expired_at((#[trigger] es[i]).inserted, now) by {
            if i > 0 {
                assert(es[i] == rest[i - 1]);
            }
        }
        if leading_expired(es, now) < es.len() {
            assert(es[leading_expired(es, now) as int] == rest[leading_expired(rest, now) as int]);
        }
    }
}

/// Adding `a` to the list of `h` stores it.
proof fn lemma_insert_contact_stores(s: Seq<(Seq<u8>, Seq<NodeAddr>)>, h: Seq<u8>, a: NodeAddr)
    ensures
        has_contact(insert_contact_spec(s, h, a), h, a),
{
    lemma_hash_index(s, h);
    match hash_index(s, h) {
        Some(i) => {
            let t = s.update(i, (h, s[i].1.push(a)));
            assert forall|k: int| 0 <= k < i implies (#[trigger] t[k]).0 != h by {
                assert(t[k] == s[k]);
            }
            lemma_hash_index_at(t, h, i);
            assert(s[i].1.push(a)[s[i].1.len() as int] == a);
        },
        None => {
            let t = s.push((h, seq![a]));
            assert forall|k: int| 0 <= k < s.len() implies (#[trigger] t[k]).0 != h by {
                assert(t[k] == s[k]);
            }
            lemma_hash_index_at(t, h, s.len() as int);
            assert(seq![a][0] == a);
        },
    }
}

/// An announce that was stored, made at a time from which it has not expired yet, is found
/// when the same storage is looked up at that time: what `find` gives for `h` holds `a`.
pub proof fn lemma_stored_announce_is_found(v: StorageView, h: Seq<u8>, a: NodeAddr, now: int, inserted: int)
    requires
        add_spec(v, h, a, now, inserted).0,
        !expired_at(inserted, now),
    ensures
        contacts_of(remove_expired(add_spec(v, h, a, now, inserted).1, now).contacts, h).contains(a),
{
    let v1 = remove_expired(v, now);
    let e = ExpirationView { address: a, info_hash: h, inserted };
    let v2 = add_spec(v, h, a, now, inserted).1;
    let k0 = leading_expired(v.expires, now);
    lemma_leading_expired_bounds(v.expires, now);
    lemma_leading_expired_bounds(v2.expires, now);
    let k = leading_expired(v2.expires, now);
    assert(v2.expires.last() == e);
    if k == v2.expires.len() {
        assert(expired_at(v2.expires[v2.expires.len() - 1].inserted, now));
    }
    assert(k < v2.expires.len());
    if has_contact(v1.contacts, h, a) {
        let kept = v1.expires.filter(other_contact(a, h));
        assert(v2.expires == kept.push(e));
        assert forall|i: int| 0 <= i < v2.expires.take(k as int).len() implies !((#[trigger] v2.expires.take(
            k as int,
        )[i]).address == a && v2.expires.take(k as int)[i].info_hash == h) by {
            assert(v2.expires.take(k as int)[i] == kept[i]);
            v1.expires.lemma_filter_pred(other_contact(a, h), i);
        }
        lemma_drop_others_keep_contact(v2.contacts, v2.expires.take(k as int), h, a);
    } else {
        assert(v2.expires == v1.expires.push(e));
        if v1.expires.len() > 0 {
            assert(v1.expires[0] == v.expires[k0 as int]);
            assert(v2.expires[0] == v1.expires[0]);
        }
        assert(k == 0);
        assert(v2.expires.take(0) =~= Seq::<ExpirationView>::empty());
        lemma_insert_contact_stores(v1.contacts, h, a);
    }
}

} // verus!
