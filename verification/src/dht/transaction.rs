//! Transaction ids: an action id (which lookup, refresh or bootstrap a message belongs to) in
//! the high bytes, and a message id (which message of that action) in the low bytes.
//!
//! Ids of both kinds are handed out from blocks that are allocated in order, shuffled, and
//! used up before the next block is allocated; when the id space is exhausted, allocation
//! starts again from zero.
use vstd::prelude::*;
use vstd::seq_lib::group_to_multiset_ensures;

use crate::dht::random::random_index;

verus! {

broadcast use group_to_multiset_ensures;

/// Bytes of a transaction id.
pub const TRANSACTION_ID_BYTES: usize = 8;
/// Bytes of the action part of a transaction id.
pub const ACTION_ID_BYTES: usize = 5;
/// Bytes of the message part of a transaction id.
pub const MESSAGE_ID_BYTES: usize = 3;
/// Bits by which an action id is shifted inside a transaction id.
pub const MESSAGE_ID_SHIFT: u64 = 24;
/// Exclusive upper bound of action ids.
pub const MAX_ACTION_ID: u64 = 0x100_0000_0000;
/// Exclusive upper bound of message ids.
pub const MAX_MESSAGE_ID: u64 = 0x100_0000;
/// Number of action ids allocated at once.
pub const ACTION_ID_PREALLOC_LEN: usize = 2048;
/// Number of message ids allocated at once.
pub const MESSAGE_ID_PREALLOC_LEN: usize = 2048;

/// The ids `start, start + 1, ..., start + len - 1`.
pub open spec fn id_block(start: int, len: int) -> Seq<u64> {
    Seq::new(len as nat, |i: int| (start + i) as u64)
}

/// Where a block allocated at `next_alloc` starts: at zero once the id space is used up.
pub open spec fn block_start(next_alloc: int, max: int) -> int {
    if next_alloc == max {
        0
    } else {
        next_alloc
    }
}

/// Puts the ids in a random order (Fisher-Yates).
pub fn shuffle(ids: &mut Vec<u64>)
    ensures
        final(ids)@.len() == old(ids)@.len(),
        final(ids)@.to_multiset() == old(ids)@.to_multiset(),
{
    let n = ids.len();
    let mut i: usize = 0;
    while i < n
        invariant
            n == ids@.len(),
            i <= n,
            ids@.to_multiset() == old(ids)@.to_multiset(),
        decreases n - i,
    {
        let j = random_index(i, n);
        let a = ids[i];
        let b = ids[j];
        let ghost s0 = ids@;
        ids.set(i, b);
        ids.set(j, a);
        assert(s0.update(i as int, b).to_multiset() == s0.to_multiset().insert(b).remove(a));
        assert(ids@.to_multiset() =~= s0.to_multiset());
        i = i + 1;
    }
}

/// Allocates the block after `next_alloc` (or the first block, once `max` is reached):
/// returns the new allocation marker and the ids of the block in increasing order.
fn generate_block(next_alloc: u64, max: u64, len: usize) -> (r: (u64, Vec<u64>))
    requires
        next_alloc <= max,
        len <= max,
        max + len <= u64::MAX,
    ensures
        r.0 == block_start(next_alloc as int, max as int) + len,
        r.1@ == id_block(block_start(next_alloc as int, max as int), len as int),
{
    let start: u64 = if next_alloc == max {
        0
    } else {
        next_alloc
    };
    let mut ids: Vec<u64> = Vec::new();
    let mut k: usize = 0;
    while k < len
        invariant
            k <= len,
            start + len <= u64::MAX,
            ids@ == id_block(start as int, k as int),
        decreases len - k,
    {
        ids.push(start + k as u64);
        k = k + 1;
        assert(ids@ =~= id_block(start as int, k as int));
    }
    (start + len as u64, ids)
}

/// Allocates the next block of action ids after `next_alloc`: returns the new allocation
/// marker and the block's ids in increasing order.
pub fn generate_aids(next_alloc: u64) -> (r: (u64, Vec<u64>))
    requires
        next_alloc <= MAX_ACTION_ID,
    ensures
        r.0 == block_start(next_alloc as int, MAX_ACTION_ID as int) + ACTION_ID_PREALLOC_LEN,
        r.1@ == id_block(block_start(next_alloc as int, MAX_ACTION_ID as int), ACTION_ID_PREALLOC_LEN as int),
{
    generate_block(next_alloc, MAX_ACTION_ID, ACTION_ID_PREALLOC_LEN)
}

/// Allocates the next block of message ids after `next_alloc`: returns the new allocation
/// marker and the block's ids in increasing order.
pub fn generate_mids(next_alloc: u64) -> (r: (u64, Vec<u64>))
    requires
        next_alloc <= MAX_MESSAGE_ID,
    ensures
        r.0 == block_start(next_alloc as int, MAX_MESSAGE_ID as int) + MESSAGE_ID_PREALLOC_LEN,
        r.1@ == id_block(block_start(next_alloc as int, MAX_MESSAGE_ID as int), MESSAGE_ID_PREALLOC_LEN as int),
{
    generate_block(next_alloc, MAX_MESSAGE_ID, MESSAGE_ID_PREALLOC_LEN)
}

/// The ids of `s` from position `from` on, with those in `lo..hi`.
pub open spec fn upcoming(s: Seq<u64>, from: int, lo: int, hi: int) -> Set<u64> {
    Set::new(|x: u64| s.subrange(from, s.len() as int).contains(x) || (lo <= x < hi))
}

/// A pool of ids below `max`, handed out one shuffled block of `len` at a time.
struct IdPool {
    /// Where the next block starts (unless the id space is used up); not shifted.
    next_alloc: u64,
    /// Position of the next id to hand out in `ids`.
    curr_index: usize,
    /// The current block, shuffled.
    ids: Vec<u64>,
}

impl IdPool {
    /// The pool is consistent for blocks of `len` ids below `max`.
    spec fn wf(&self, max: int, len: int) -> bool {
        &&& 0 < len <= max
        &&& max + len <= u64::MAX
        &&& max % len == 0
        &&& (self.next_alloc as int) % len == 0
        &&& self.next_alloc <= max
        &&& self.ids@.len() == len
        &&& self.curr_index <= len
        &&& self.next_alloc == 0 ==> self.curr_index == len
        &&& self.next_alloc != 0 ==> len <= self.next_alloc
        &&& self.next_alloc != 0 ==> self.ids@.to_multiset() == id_block(self.next_alloc - len, len).to_multiset()
    }

    /// Ids that will be handed out, in some order, before the id space wraps around.
    spec fn pending(&self, max: int) -> Set<u64> {
        upcoming(self.ids@, self.curr_index as int, self.next_alloc as int, max)
    }

    /// A pool from which nothing has been allocated yet.
    fn empty(len: usize) -> (p: IdPool)
        ensures
            p.next_alloc == 0,
            p.curr_index == len,
            p.ids@.len() == len,
    {
        let mut ids: Vec<u64> = Vec::new();
        let mut k: usize = 0;
        while k < len
            invariant
                k <= len,
                ids@.len() == k,
            decreases len - k,
        {
            ids.push(0);
            k = k + 1;
        }
        IdPool { next_alloc: 0, curr_index: len, ids }
    }

    /// Allocates and shuffles the next block, once the current one is used up. What remains
    /// to be handed out is unchanged, unless the id space was used up: then it is all of it.
    fn refill(&mut self, max: u64, len: usize)
        requires
            old(self).wf(max as int, len as int),
            old(self).curr_index == len,
        ensures
            final(self).wf(max as int, len as int),
            final(self).curr_index == 0,
            final(self).next_alloc != 0,
            old(self).pending(max as int).is_empty() ==> final(self).pending(max as int) == Set::new(|x: u64| x < max),
            !old(self).pending(max as int).is_empty() ==> final(self).pending(max as int) == old(self).pending(
                max as int,
            ),
            old(self).pending(max as int).is_empty() <==> old(self).next_alloc == max,
            old(self).next_alloc == max ==> final(self).next_alloc == len,
    {
        let ghost old_pending = self.pending(max as int);
        let ghost old_next = self.next_alloc as int;
        proof {
            assert(self.ids@.subrange(self.curr_index as int, self.ids@.len() as int) =~= Seq::<u64>::empty());
            if old_next == max {
                assert(old_pending =~= Set::<u64>::empty());
            } else {
                assert(old_pending.contains(old_next as u64));
                lemma_next_block(old_next, max as int, len as int);
            }
        }
        let (next_alloc, mut ids) = generate_block(self.next_alloc, max, len);
        let ghost start = block_start(old_next, max as int);
        let ghost fresh = ids@;
        shuffle(&mut ids);
        self.next_alloc = next_alloc;
        self.ids = ids;
        self.curr_index = 0;
        proof {
            lemma_block_contains(fresh, start, len as int);
            assert forall|x: u64| #[trigger] self.ids@.contains(x) <==> (start <= x < start + len) by {
                assert(self.ids@.contains(x) <==> self.ids@.to_multiset().count(x) > 0);
                assert(fresh.contains(x) <==> fresh.to_multiset().count(x) > 0);
            }
            assert(self.ids@.subrange(0, self.ids@.len() as int) =~= self.ids@);
            vstd::arithmetic::div_mod::lemma_mod_add_multiples_vanish(start, len as int);
            if old_next == max {
                vstd::arithmetic::div_mod::lemma_mod_multiples_basic(1, len as int);
                assert(self.pending(max as int) =~= Set::new(|x: u64| x < max));
            } else {
                assert(self.pending(max as int) =~= old_pending);
            }
        }
    }

    /// Hands out the next id, allocating (and shuffling) a new block when the current one is
    /// used up.
    fn take(&mut self, max: u64, len: usize) -> (id: u64)
        requires
            old(self).wf(max as int, len as int),
        ensures
            final(self).wf(max as int, len as int),
            id < max,
            !old(self).pending(max as int).is_empty() ==> old(self).pending(max as int).contains(id)
                && final(self).pending(max as int) == old(self).pending(max as int).remove(id),
            old(self).pending(max as int).is_empty() ==> id < len && final(self).pending(max as int) == Set::new(
                |x: u64| x < max,
            ).remove(id),
    {
        let ghost old_pending = self.pending(max as int);
        if self.curr_index >= self.ids.len() {
            self.refill(max, len);
        } else {
            proof {
                let rest = self.ids@.subrange(self.curr_index as int, self.ids@.len() as int);
                assert(rest[0] == self.ids@[self.curr_index as int]);
                assert(rest.contains(self.ids@[self.curr_index as int]));
                assert(old_pending.contains(self.ids@[self.curr_index as int]));
            }
        }
        assert(self.wf(max as int, len as int) && self.next_alloc != 0 && self.curr_index < len);
        let ghost mid = self.pending(max as int);
        let i = self.curr_index;
        let id = self.ids[i];
        self.curr_index = i + 1;
        proof {
            lemma_pool_ids(self.ids@, self.next_alloc as int, len as int);
            let s = self.ids@;
            let rest = s.subrange(i + 1, s.len() as int);
            assert(s[i as int] == id);
            assert(s.contains(id));
            assert(s.subrange(i as int, s.len() as int) =~= seq![id] + rest);
            assert(!rest.contains(id)) by {
                if rest.contains(id) {
                    let k = choose|k: int| 0 <= k < rest.len() && rest[k] == id;
                    assert(s[i + 1 + k] == s[i as int]);
                }
            }
            let whole = s.subrange(i as int, s.len() as int);
            assert forall|x: u64| #[trigger] whole.contains(x) && x != id implies rest.contains(x) by {
                let k = choose|k: int| 0 <= k < whole.len() && whole[k] == x;
                assert(k != 0);
                assert(rest[k - 1] == x);
            }
            assert forall|x: u64| #[trigger] rest.contains(x) implies whole.contains(x) && x != id by {
                let k = choose|k: int| 0 <= k < rest.len() && rest[k] == x;
                assert(whole[k + 1] == x);
            }
            assert(whole[0] == id);
            assert(mid.contains(id));
            assert(self.pending(max as int) =~= mid.remove(id));
        }
        assert(!old_pending.is_empty() ==> mid == old_pending);
        id
    }

    /// Uses up every id that is left before the id space wraps around.
    fn exhaust(&mut self, max: u64, len: usize)
        requires
            old(self).wf(max as int, len as int),
        ensures
            final(self).wf(max as int, len as int),
            final(self).pending(max as int).is_empty(),
    {
        let (_, ids) = generate_block(max - len as u64, max, len);
        self.ids = ids;
        self.next_alloc = max;
        self.curr_index = len;
        proof {
            vstd::arithmetic::div_mod::lemma_mod_add_multiples_vanish((max - len) as int, len as int);
            assert(self.ids@.subrange(len as int, len as int) =~= Seq::<u64>::empty());
            assert(self.pending(max as int) =~= Set::<u64>::empty());
        }
    }
}

/// Hands out action ids; each comes with a generator of the message ids of that action.
pub struct AIDGenerator {
    pool: IdPool,
}

impl AIDGenerator {
    /// The generator's blocks are consistent.
    pub closed spec fn wf(self) -> bool {
        self.pool.wf(MAX_ACTION_ID as int, ACTION_ID_PREALLOC_LEN as int)
    }

    /// Action ids still to be handed out before the id space wraps around.
    pub closed spec fn pending(self) -> Set<u64> {
        self.pool.pending(MAX_ACTION_ID as int)
    }

    /// A generator with the first block of action ids allocated and shuffled.
    pub fn new() -> (g: AIDGenerator)
        ensures
            g.wf(),
            g.pending() == Set::new(|x: u64| x < MAX_ACTION_ID),
    {
        let mut pool = IdPool::empty(ACTION_ID_PREALLOC_LEN);
        proof {
            assert(pool.ids@.subrange(pool.curr_index as int, pool.ids@.len() as int) =~= Seq::<u64>::empty());
            assert(pool.pending(MAX_ACTION_ID as int).contains(0u64));
        }
        pool.refill(MAX_ACTION_ID, ACTION_ID_PREALLOC_LEN);
        proof {
            assert(pool.pending(MAX_ACTION_ID as int) =~= Set::new(|x: u64| x < MAX_ACTION_ID));
        }
        AIDGenerator { pool }
    }

    /// Hands out the next action id, as a fresh generator of its message ids. The id is one
    /// that was still to come, and will not come again before the id space wraps around.
    pub fn generate(&mut self) -> (m: MIDGenerator)
        requires
            old(self).wf(),
        ensures
            final(self).wf(),
            m.wf(),
            m.action_value() < MAX_ACTION_ID,
            m.pending() == Set::new(|x: u64| x < MAX_MESSAGE_ID),
            !old(self).pending().is_empty() ==> old(self).pending().contains(m.action_value())
                && final(self).pending() == old(self).pending().remove(m.action_value()),
            old(self).pending().is_empty() ==> m.action_value() < ACTION_ID_PREALLOC_LEN && final(self).pending()
                == Set::new(|x: u64| x < MAX_ACTION_ID).remove(m.action_value()),
            aid_generated(*old(self), m, *final(self)),
    {
        let a = self.pool.take(MAX_ACTION_ID, ACTION_ID_PREALLOC_LEN);
        MIDGenerator::new(a * 0x100_0000)
    }

    /// Uses up every action id left before the id space wraps around, so that the next one
    /// handed out comes from the first block again.
    pub fn exhaust(&mut self)
        requires
            old(self).wf(),
        ensures
            final(self).wf(),
            final(self).pending().is_empty(),
    {
        self.pool.exhaust(MAX_ACTION_ID, ACTION_ID_PREALLOC_LEN);
    }
}

/// The message part of a transaction id.
pub open spec fn message_part(t: TransactionID) -> u64 {
    (t.value() % 0x100_0000) as u64
}

/// The message ids still to come after handing out `m` when `p` were still to come: `m`
/// must be one of them and leaves them; once none is left the id space starts over, and `m`
/// comes from its first block.
pub open spec fn issue_next(p: Set<u64>, m: u64) -> Option<Set<u64>> {
    if p.is_empty() {
        if m < MESSAGE_ID_PREALLOC_LEN {
            Some(Set::new(|x: u64| x < MAX_MESSAGE_ID).remove(m))
        } else {
            None
        }
    } else if p.contains(m) {
        Some(p.remove(m))
    } else {
        None
    }
}

/// The message ids still to come after handing out each of `ms` in turn from `p` (see
/// `issue_next`); `None` when one of them could not have been handed out.
pub open spec fn issued(p: Set<u64>, ms: Seq<u64>) -> Option<Set<u64>>
    decreases ms.len(),
{
    if ms.len() == 0 {
        Some(p)
    } else {
        match issued(p, ms.drop_last()) {
            Some(q) => issue_next(q, ms.last()),
            None => None,
        }
    }
}

/// The message parts of transaction ids.
pub open spec fn message_parts(ts: Seq<TransactionID>) -> Seq<u64> {
    ts.map_values(|t: TransactionID| message_part(t))
}

/// Handing out one more id after `ms`.
pub proof fn lemma_issued_push(p: Set<u64>, ms: Seq<u64>, m: u64)
    ensures
        issued(p, ms.push(m)) == match issued(p, ms) {
            Some(q) => issue_next(q, m),
            None => None,
        },
{
    assert(ms.push(m).drop_last() =~= ms);
}

/// Handing out `a`, then `b`, is handing out `a + b`.
pub proof fn lemma_issued_append(p: Set<u64>, a: Seq<u64>, b: Seq<u64>)
    ensures
        issued(p, a + b) == match issued(p, a) {
            Some(q) => issued(q, b),
            None => None,
        },
    decreases b.len(),
{
    if b.len() == 0 {
        assert(a + b =~= a);
    } else {
        lemma_issued_append(p, a, b.drop_last());
        assert((a + b).drop_last() =~= a + b.drop_last());
        assert((a + b).last() == b.last());
    }
}

/// Message ids handed out one after another, while the ids still to come do not run out,
/// are all different and leave the ids still to come: when `p` is finite and holds at least
/// as many ids as are handed out, no id of `ms` comes twice, and the ids still to come
/// afterwards are those of `p` that are not in `ms`.
pub proof fn lemma_issued_distinct(p: Set<u64>, ms: Seq<u64>)
    requires
        p.finite(),
        ms.len() <= p.len(),
        issued(p, ms) is Some,
    ensures
        forall|i: int, j: int| 0 <= i < j < ms.len() ==> ms[i] != ms[j],
        issued(p, ms) == Some(p.difference(ms.to_set())),
        forall|i: int| 0 <= i < ms.len() ==> p.contains(#[trigger] ms[i]),
        p.difference(ms.to_set()).len() == p.len() - ms.len(),
    decreases ms.len(),
{
    if ms.len() == 0 {
        assert(p.difference(ms.to_set()) =~= p);
    } else {
        let prev = ms.drop_last();
        let m = ms.last();
        lemma_issued_distinct(p, prev);
        let q = p.difference(prev.to_set());
        assert(prev.to_set().finite()) by {
            prev.lemma_cardinality_of_set();
        }
        assert(q.len() >= 1) by {
            prev.lemma_cardinality_of_set();
            vstd::set_lib::lemma_len_subset(prev.to_set(), p);
            assert forall|x: u64| prev.to_set().contains(x) implies p.contains(x) by {
                let i = choose|i: int| 0 <= i < prev.len() && prev[i] == x;
                assert(p.contains(prev[i]));
            }
            assert(prev.to_set().subset_of(p));
            vstd::set_lib::lemma_set_difference_len(p, prev.to_set());
            assert(p.intersect(prev.to_set()) =~= prev.to_set());
        }
        assert(!q.is_empty()) by {
            if q.is_empty() {
                assert(q =~= Set::<u64>::empty());
            }
        }
        assert(q.contains(m));
        assert(issued(p, ms) == Some(q.remove(m))) by {
            assert(ms =~= prev.push(m));
            lemma_issued_push(p, prev, m);
        }
        assert(q.remove(m) =~= p.difference(ms.to_set())) by {
            assert forall|x: u64| ms.to_set().contains(x) <==> (prev.to_set().contains(x) || x == m) by {
                if ms.to_set().contains(x) {
                    let i = choose|i: int| 0 <= i < ms.len() && ms[i] == x;
                    if i < prev.len() {
                        assert(prev[i] == x);
                    }
                }
                if prev.to_set().contains(x) {
                    let i = choose|i: int| 0 <= i < prev.len() && prev[i] == x;
                    assert(ms[i] == x);
                }
                if x == m {
                    assert(ms[ms.len() - 1] == x);
                }
            }
        }
        assert forall|i: int, j: int| 0 <= i < j < ms.len() implies ms[i] != ms[j] by {
            if j < ms.len() - 1 {
                assert(prev[i] == ms[i] && prev[j] == ms[j]);
            } else {
                assert(prev[i] == ms[i]);
                assert(prev.to_set().contains(ms[i]));
            }
        }
        assert forall|i: int| 0 <= i < ms.len() implies p.contains(#[trigger] ms[i]) by {
            if i < ms.len() - 1 {
                assert(prev[i] == ms[i]);
            }
        }
        assert(q.finite());
    }
}

/// Hands out the message ids of one action, as whole transaction ids.
pub struct MIDGenerator {
    /// The action id, already shifted into place.
    action_id: u64,
    pool: IdPool,
}

impl MIDGenerator {
    /// The generator's blocks are consistent and its action id is shifted into place.
    pub closed spec fn wf(self) -> bool {
        &&& self.pool.wf(MAX_MESSAGE_ID as int, MESSAGE_ID_PREALLOC_LEN as int)
        &&& self.action_id % 0x100_0000 == 0
    }

    /// The action id (not shifted).
    pub closed spec fn action_value(self) -> u64 {
        (self.action_id / 0x100_0000) as u64
    }

    /// Message ids still to be handed out before the id space wraps around.
    pub closed spec fn pending(self) -> Set<u64> {
        self.pool.pending(MAX_MESSAGE_ID as int)
    }

    /// A generator for an action id that is already shifted into place; its first block is
    /// allocated on first use.
    fn new(action_id: u64) -> (m: MIDGenerator)
        requires
            action_id % 0x100_0000 == 0,
        ensures
            m.wf(),
            m.action_value() == action_id / 0x100_0000,
            m.pending() == Set::new(|x: u64| x < MAX_MESSAGE_ID),
    {
        let pool = IdPool::empty(MESSAGE_ID_PREALLOC_LEN);
        proof {
            assert(pool.ids@.subrange(pool.curr_index as int, pool.ids@.len() as int) =~= Seq::<u64>::empty());
            assert(pool.pending(MAX_MESSAGE_ID as int) =~= Set::new(|x: u64| x < MAX_MESSAGE_ID));
        }
        MIDGenerator { action_id, pool }
    }

    /// The action these messages belong to.
    pub fn action_id(&self) -> (a: ActionID)
        ensures
            a.value() == self.action_value(),
    {
        ActionID::from_transaction_id(self.action_id)
    }

    /// Hands out the next transaction id of this action. Its message id is one that was still
    /// to come, and will not come again before the id space wraps around.
    pub fn generate(&mut self) -> (t: TransactionID)
        requires
            old(self).wf(),
        ensures
            final(self).wf(),
            final(self).action_value() == old(self).action_value(),
            t.value() / 0x100_0000 == old(self).action_value(),
            !old(self).pending().is_empty() ==> old(self).pending().contains((t.value() % 0x100_0000) as u64)
                && final(self).pending() == old(self).pending().remove((t.value() % 0x100_0000) as u64),
            old(self).pending().is_empty() ==> t.value() % 0x100_0000 < MESSAGE_ID_PREALLOC_LEN
                && final(self).pending() == Set::new(|x: u64| x < MAX_MESSAGE_ID).remove(
                (t.value() % 0x100_0000) as u64,
            ),
            issue_next(old(self).pending(), message_part(t)) == Some(final(self).pending()),
            mid_generated(*old(self), t, *final(self)),
    {
        let m = self.pool.take(MAX_MESSAGE_ID, MESSAGE_ID_PREALLOC_LEN);
        let s = self.action_id;
        assert((s | m) / 0x100_0000 == s / 0x100_0000 && (s | m) % 0x100_0000 == m) by (bit_vector)
            requires
                s % 0x100_0000 == 0,
                m < 0x100_0000,
        ;
        TransactionID::new(s | m)
    }

    /// Uses up every message id left before the id space wraps around, so that the next one
    /// handed out comes from the first block again.
    pub fn exhaust(&mut self)
        requires
            old(self).wf(),
        ensures
            final(self).wf(),
            final(self).action_value() == old(self).action_value(),
            final(self).pending().is_empty(),
    {
        self.pool.exhaust(MAX_MESSAGE_ID, MESSAGE_ID_PREALLOC_LEN);
    }
}

/// Every set of ids is finite.
proof fn lemma_ids_finite(s: Set<u64>)
    ensures
        s.finite(),
{
    <u64 as vstd::set_lib::FiniteFull>::full_properties();
    vstd::set_lib::lemma_set_subset_finite(Set::<u64>::full(), s);
}

/// The ids below `max` are `max` many.
proof fn lemma_ids_below_len(max: u64)
    ensures
        Set::new(|x: u64| x < max).finite(),
        Set::new(|x: u64| x < max).len() == max,
{
    assert(Set::new(|x: u64| x < max) =~= Set::<u64>::range(0u64, max));
    <u64 as vstd::set_lib::FiniteRange>::range_properties(0u64, max);
}

/// `after` is `before` once it has handed out `t` (what `MIDGenerator::generate` ensures).
pub open spec fn mid_generated(before: MIDGenerator, t: TransactionID, after: MIDGenerator) -> bool {
    &&& after.wf()
    &&& after.action_value() == before.action_value()
    &&& t.value() / 0x100_0000 == before.action_value()
    &&& issue_next(before.pending(), message_part(t)) == Some(after.pending())
}

/// Successive calls of `MIDGenerator::generate`: `gs[i + 1]` is `gs[i]` once it has handed
/// out `ts[i]`.
pub open spec fn mid_run(gs: Seq<MIDGenerator>, ts: Seq<TransactionID>) -> bool {
    &&& gs.len() == ts.len() + 1
    &&& forall|i: int| 0 <= i < ts.len() ==> mid_generated(gs[i], #[trigger] ts[i], gs[i + 1])
}

/// Every transaction id that one message-id generator hands out, call after call, carries
/// the generator's action id, which never changes. Its message ids are handed out as
/// `issued` says: as long as the ids still to come at the start do not run out, no two
/// message ids (and so no two transaction ids) are alike; once they have run out, the next
/// one comes from the first block of message ids again.
pub proof fn lemma_mid_run(gs: Seq<MIDGenerator>, ts: Seq<TransactionID>)
    requires
        mid_run(gs, ts),
    ensures
        forall|i: int| 0 <= i < gs.len() ==> (#[trigger] gs[i].action_value()) == gs[0].action_value(),
        forall|i: int| 0 <= i < ts.len() ==> (#[trigger] ts[i].value()) / 0x100_0000 == gs[0].action_value(),
        issued(gs[0].pending(), message_parts(ts)) == Some(gs.last().pending()),
        ts.len() <= gs[0].pending().len() ==> forall|i: int, j: int|
            0 <= i < j < ts.len() ==> message_part(#[trigger] ts[i]) != message_part(#[trigger] ts[j]) && ts[i] != ts[j],
        ts.len() > gs[0].pending().len() ==> message_part(ts[gs[0].pending().len() as int]) < MESSAGE_ID_PREALLOC_LEN,
    decreases ts.len(),
{
    let p = gs[0].pending();
    lemma_ids_finite(p);
    if ts.len() == 0 {
        assert(message_parts(ts) =~= Seq::<u64>::empty());
    } else {
        let k = ts.len() - 1;
        let gp = gs.drop_last();
        let tp = ts.drop_last();
        assert(mid_run(gp, tp)) by {
            assert forall|i: int| 0 <= i < tp.len() implies mid_generated(gp[i], #[trigger] tp[i], gp[i + 1]) by {
                assert(tp[i] == ts[i]);
                assert(gp[i] == gs[i] && gp[i + 1] == gs[i + 1]);
            }
        }
        lemma_mid_run(gp, tp);
        assert(mid_generated(gs[k], ts[k], gs[k + 1]));
        assert(gp[k] == gs[k]);
        assert(message_parts(ts) =~= message_parts(tp).push(message_part(ts[k])));
        lemma_issued_push(p, message_parts(tp), message_part(ts[k]));
        assert forall|i: int| 0 <= i < gs.len() implies (#[trigger] gs[i].action_value()) == gs[0].action_value() by {
            if i < gs.len() - 1 {
                assert(gp[i] == gs[i]);
            }
        }
        assert forall|i: int| 0 <= i < ts.len() implies (#[trigger] ts[i].value()) / 0x100_0000 == gs[0].action_value() by {
            if i < k {
                assert(tp[i] == ts[i]);
            }
        }
        if ts.len() > p.len() {
            let n = p.len() as int;
            if n < k {
                assert(tp[n] == ts[n]);
            } else {
                lemma_issued_distinct(p, message_parts(tp));
                gs[k].pending().lemma_len0_is_empty();
            }
        }
    }
    if ts.len() <= p.len() {
        lemma_issued_distinct(p, message_parts(ts));
        assert forall|i: int, j: int| 0 <= i < j < ts.len() implies message_part(#[trigger] ts[i]) != message_part(
            #[trigger] ts[j],
        ) && ts[i] != ts[j] by {
            assert(message_parts(ts)[i] == message_part(ts[i]));
            assert(message_parts(ts)[j] == message_part(ts[j]));
        }
    }
}

/// A fresh message-id generator hands out `MAX_MESSAGE_ID` transaction ids, all different,
/// before its message ids run out; the next comes from the first block again.
pub proof fn lemma_fresh_mid_run(gs: Seq<MIDGenerator>, ts: Seq<TransactionID>)
    requires
        mid_run(gs, ts),
        gs[0].pending() == Set::new(|x: u64| x < MAX_MESSAGE_ID),
    ensures
        ts.len() <= MAX_MESSAGE_ID ==> forall|i: int, j: int| 0 <= i < j < ts.len() ==> #[trigger] ts[i] != #[trigger] ts[j],
        ts.len() > MAX_MESSAGE_ID ==> message_part(ts[MAX_MESSAGE_ID as int]) < MESSAGE_ID_PREALLOC_LEN,
{
    lemma_ids_below_len(MAX_MESSAGE_ID);
    lemma_mid_run(gs, ts);
    if ts.len() <= MAX_MESSAGE_ID {
        assert forall|i: int, j: int| 0 <= i < j < ts.len() implies #[trigger] ts[i] != #[trigger] ts[j] by {
            assert(message_part(ts[i]) != message_part(ts[j]));
        }
    }
}

/// `after` is `before` once it has handed out `m` (what `AIDGenerator::generate` ensures).
pub open spec fn aid_generated(before: AIDGenerator, m: MIDGenerator, after: AIDGenerator) -> bool {
    &&& after.wf()
    &&& m.wf()
    &&& m.action_value() < MAX_ACTION_ID
    &&& m.pending() == Set::new(|x: u64| x < MAX_MESSAGE_ID)
    &&& !before.pending().is_empty() ==> before.pending().contains(m.action_value()) && after.pending()
        == before.pending().remove(m.action_value())
    &&& before.pending().is_empty() ==> m.action_value() < ACTION_ID_PREALLOC_LEN && after.pending() == Set::new(
        |x: u64| x < MAX_ACTION_ID,
    ).remove(m.action_value())
}

/// Successive calls of `AIDGenerator::generate`: `gs[i + 1]` is `gs[i]` once it has handed
/// out `ms[i]`.
pub open spec fn aid_run(gs: Seq<AIDGenerator>, ms: Seq<MIDGenerator>) -> bool {
    &&& gs.len() == ms.len() + 1
    &&& forall|i: int| 0 <= i < ms.len() ==> aid_generated(gs[i], #[trigger] ms[i], gs[i + 1])
}

/// The action ids of message-id generators.
pub open spec fn action_values(ms: Seq<MIDGenerator>) -> Seq<u64> {
    ms.map_values(|m: MIDGenerator| m.action_value())
}

/// Action ids handed out call after call, as long as the action ids still to come at the
/// start do not run out, are all different and are taken from those still to come; each
/// comes with a fresh generator of message ids.
pub proof fn lemma_aid_run(gs: Seq<AIDGenerator>, ms: Seq<MIDGenerator>)
    requires
        aid_run(gs, ms),
        ms.len() <= gs[0].pending().len(),
    ensures
        issued(gs[0].pending(), action_values(ms)) == Some(gs.last().pending()),
        gs.last().pending() == gs[0].pending().difference(action_values(ms).to_set()),
        forall|i: int, j: int| 0 <= i < j < ms.len() ==> (#[trigger] ms[i].action_value()) != (
        #[trigger] ms[j].action_value()),
        forall|i: int| 0 <= i < ms.len() ==> #[trigger] ms[i].pending() == Set::new(|x: u64| x < MAX_MESSAGE_ID),
    decreases ms.len(),
{
    let p = gs[0].pending();
    lemma_ids_finite(p);
    if ms.len() == 0 {
        assert(action_values(ms) =~= Seq::<u64>::empty());
    } else {
        let k = ms.len() - 1;
        let gp = gs.drop_last();
        let mp = ms.drop_last();
        assert(aid_run(gp, mp)) by {
            assert forall|i: int| 0 <= i < mp.len() implies aid_generated(gp[i], #[trigger] mp[i], gp[i + 1]) by {
                assert(mp[i] == ms[i]);
                assert(gp[i] == gs[i] && gp[i + 1] == gs[i + 1]);
            }
        }
        lemma_aid_run(gp, mp);
        lemma_issued_distinct(p, action_values(mp));
        assert(gp[k] == gs[k]);
        let q = gs[k].pending();
        assert(!q.is_empty()) by {
            if q.is_empty() {
                assert(q =~= Set::<u64>::empty());
            }
        }
        assert(aid_generated(gs[k], ms[k], gs[k + 1]));
        let v = ms[k].action_value();
        assert(issue_next(q, v) == Some(gs[k + 1].pending()));
        assert(action_values(ms) =~= action_values(mp).push(v));
        lemma_issued_push(p, action_values(mp), v);
        assert forall|i: int| 0 <= i < ms.len() implies #[trigger] ms[i].pending() == Set::new(
            |x: u64| x < MAX_MESSAGE_ID,
        ) by {
            if i < k {
                assert(mp[i] == ms[i]);
            }
        }
    }
    lemma_issued_distinct(p, action_values(ms));
    assert forall|i: int, j: int| 0 <= i < j < ms.len() implies (#[trigger] ms[i].action_value()) != (
    #[trigger] ms[j].action_value()) by {
        assert(action_values(ms)[i] == ms[i].action_value());
        assert(action_values(ms)[j] == ms[j].action_value());
    }
}

/// A fresh action-id generator hands out `MAX_ACTION_ID` action ids, all different, before
/// they run out; the next comes from the first block of action ids again.
pub proof fn lemma_fresh_aid_run(gs: Seq<AIDGenerator>, ms: Seq<MIDGenerator>)
    requires
        aid_run(gs, ms),
        gs[0].pending() == Set::new(|x: u64| x < MAX_ACTION_ID),
    ensures
        ms.len() <= MAX_ACTION_ID ==> forall|i: int, j: int|
            0 <= i < j < ms.len() ==> (#[trigger] ms[i].action_value()) != (#[trigger] ms[j].action_value()),
        ms.len() > MAX_ACTION_ID ==> ms[MAX_ACTION_ID as int].action_value() < ACTION_ID_PREALLOC_LEN,
{
    lemma_ids_below_len(MAX_ACTION_ID);
    if ms.len() <= MAX_ACTION_ID {
        lemma_aid_run(gs, ms);
    } else {
        let n = MAX_ACTION_ID as int;
        let gp = gs.subrange(0, n + 1);
        let mp = ms.subrange(0, n);
        assert(aid_run(gp, mp)) by {
            assert forall|i: int| 0 <= i < mp.len() implies aid_generated(gp[i], #[trigger] mp[i], gp[i + 1]) by {
                assert(mp[i] == ms[i]);
                assert(gp[i] == gs[i] && gp[i + 1] == gs[i + 1]);
            }
        }
        lemma_aid_run(gp, mp);
        lemma_issued_distinct(gs[0].pending(), action_values(mp));
        assert(gp.last() == gs[n]);
        gs[n].pending().lemma_len0_is_empty();
        assert(aid_generated(gs[n], ms[n], gs[n + 1]));
    }
}

/// Blocks of `len` ids that start at multiples of `len` fit below a multiple `max` of `len`.
proof fn lemma_next_block(next: int, max: int, len: int)
    requires
        0 < len,
        next % len == 0,
        max % len == 0,
        0 <= next < max,
    ensures
        next + len <= max,
{
    vstd::arithmetic::div_mod::lemma_fundamental_div_mod(next, len);
    vstd::arithmetic::div_mod::lemma_fundamental_div_mod(max, len);
    let a = next / len;
    let b = max / len;
    assert(a < b) by (nonlinear_arith)
        requires
            next == len * a,
            max == len * b,
            next < max,
            0 < len,
    ;
    assert(len * a + len <= len * b) by (nonlinear_arith)
        requires
            a < b,
            0 < len,
    ;
}

/// The ids of a block are those in its range.
proof fn lemma_block_contains(s: Seq<u64>, start: int, len: int)
    requires
        s == id_block(start, len),
        0 <= start,
        start + len <= u64::MAX,
        0 <= len,
    ensures
        forall|x: u64| #[trigger] s.contains(x) <==> (start <= x < start + len),
        s.no_duplicates(),
{
    assert forall|x: u64| #[trigger] s.contains(x) <==> (start <= x < start + len) by {
        if start <= x < start + len {
            assert(s[x - start] == x);
        }
    }
}

/// A block's ids, in whatever order, are distinct and lie in the block's range.
proof fn lemma_pool_ids(s: Seq<u64>, next_alloc: int, len: int)
    requires
        s.to_multiset() == id_block(next_alloc - len, len).to_multiset(),
        len <= next_alloc,
        next_alloc <= u64::MAX,
        0 <= len,
    ensures
        s.no_duplicates(),
        forall|x: u64| #[trigger] s.contains(x) ==> next_alloc - len <= x < next_alloc,
{
    let b = id_block(next_alloc - len, len);
    lemma_block_contains(b, next_alloc - len, len);
    b.lemma_multiset_has_no_duplicates();
    assert forall|x: u64| s.to_multiset().contains(x) implies s.to_multiset().count(x) == 1 by {}
    s.lemma_multiset_has_no_duplicates_conv();
    assert forall|x: u64| #[trigger] s.contains(x) implies next_alloc - len <= x < next_alloc by {
        assert(s.to_multiset().count(x) > 0);
        assert(b.contains(x));
    }
}

/// The number whose big-endian bytes are the first `n` bytes of `s`.
pub open spec fn be_prefix(s: Seq<u8>, n: int) -> nat
    decreases n,
{
    if n <= 0 {
        0
    } else {
        be_prefix(s, n - 1) * 256 + s[n - 1] as nat
    }
}

/// The number whose big-endian bytes are `s`.
pub open spec fn be_value(s: Seq<u8>) -> nat {
    be_prefix(s, s.len() as int)
}

/// The big-endian bytes of `x`.
pub open spec fn be_bytes(x: u64) -> Seq<u8> {
    seq![
        (x >> 56u64) as u8,
        ((x >> 48u64) & 0xffu64) as u8,
        ((x >> 40u64) & 0xffu64) as u8,
        ((x >> 32u64) & 0xffu64) as u8,
        ((x >> 24u64) & 0xffu64) as u8,
        ((x >> 16u64) & 0xffu64) as u8,
        ((x >> 8u64) & 0xffu64) as u8,
        (x & 0xffu64) as u8,
    ]
}

/// `256` to the power `n`.
pub open spec fn pow256(n: int) -> nat
    decreases n,
{
    if n <= 0 {
        1
    } else {
        256 * pow256(n - 1)
    }
}

/// A number below `256^n` fits the bytes it is read from.
proof fn lemma_be_prefix_bound(s: Seq<u8>, n: int)
    requires
        0 <= n <= s.len(),
    ensures
        be_prefix(s, n) < pow256(n),
    decreases n,
{
    if n > 0 {
        lemma_be_prefix_bound(s, n - 1);
    }
}

/// Reading the big-endian bytes of `x` gives `x` back.
pub proof fn lemma_be_bytes_value(x: u64)
    ensures
        be_value(be_bytes(x)) == x,
        be_bytes(x).len() == 8,
{
    let b = be_bytes(x);
    reveal_with_fuel(be_prefix, 2);
    assert(((x >> 56u64) as u8) as u64 == x >> 56u64) by (bit_vector);
    assert(be_prefix(b, 1) == x >> 56u64);
    assert((x >> 56u64) * 256 + ((x >> 48u64) & 0xffu64) == x >> 48u64) by (bit_vector);
    assert((((x >> 48u64) & 0xffu64) as u8) as u64 == (x >> 48u64) & 0xffu64) by (bit_vector);
    assert(be_prefix(b, 2) == x >> 48u64);
    assert((x >> 48u64) * 256 + ((x >> 40u64) & 0xffu64) == x >> 40u64) by (bit_vector);
    assert((((x >> 40u64) & 0xffu64) as u8) as u64 == (x >> 40u64) & 0xffu64) by (bit_vector);
    assert(be_prefix(b, 3) == x >> 40u64);
    assert((x >> 40u64) * 256 + ((x >> 32u64) & 0xffu64) == x >> 32u64) by (bit_vector);
    assert((((x >> 32u64) & 0xffu64) as u8) as u64 == (x >> 32u64) & 0xffu64) by (bit_vector);
    assert(be_prefix(b, 4) == x >> 32u64);
    assert((x >> 32u64) * 256 + ((x >> 24u64) & 0xffu64) == x >> 24u64) by (bit_vector);
    assert((((x >> 24u64) & 0xffu64) as u8) as u64 == (x >> 24u64) & 0xffu64) by (bit_vector);
    assert(be_prefix(b, 5) == x >> 24u64);
    assert((x >> 24u64) * 256 + ((x >> 16u64) & 0xffu64) == x >> 16u64) by (bit_vector);
    assert((((x >> 16u64) & 0xffu64) as u8) as u64 == (x >> 16u64) & 0xffu64) by (bit_vector);
    assert(be_prefix(b, 6) == x >> 16u64);
    assert((x >> 16u64) * 256 + ((x >> 8u64) & 0xffu64) == x >> 8u64) by (bit_vector);
    assert((((x >> 8u64) & 0xffu64) as u8) as u64 == (x >> 8u64) & 0xffu64) by (bit_vector);
    assert(be_prefix(b, 7) == x >> 8u64);
    assert((x >> 8u64) * 256 + (x & 0xffu64) == x) by (bit_vector);
    assert(((x & 0xffu64) as u8) as u64 == x & 0xffu64) by (bit_vector);
    assert(be_prefix(b, 8) == x);
}

/// The big-endian bytes of `x`.
pub(crate) fn to_be_bytes(x: u64) -> (r: [u8; 8])
    ensures
        r@ == be_bytes(x),
{
    let r: [u8; 8] = [
        (x >> 56u64) as u8,
        ((x >> 48u64) & 0xffu64) as u8,
        ((x >> 40u64) & 0xffu64) as u8,
        ((x >> 32u64) & 0xffu64) as u8,
        ((x >> 24u64) & 0xffu64) as u8,
        ((x >> 16u64) & 0xffu64) as u8,
        ((x >> 8u64) & 0xffu64) as u8,
        (x & 0xffu64) as u8,
    ];
    assert(r@ =~= be_bytes(x));
    r
}

/// A transaction id, with its bytes as sent on the wire.
#[derive(Copy, Clone, PartialEq, Eq, Hash, Debug)]
pub struct TransactionID {
    trans_id: u64,
    trans_id_bytes: [u8; 8],
}

impl TransactionID {
    #[verifier::type_invariant]
    spec fn bytes_match(self) -> bool {
        self.trans_id_bytes@ == be_bytes(self.trans_id)
    }

    /// The id as a number.
    pub closed spec fn value(self) -> u64 {
        self.trans_id
    }

    /// The id's bytes, big-endian.
    pub closed spec fn bytes(self) -> Seq<u8> {
        self.trans_id_bytes@
    }

    fn new(trans_id: u64) -> (t: TransactionID)
        ensures
            t.value() == trans_id,
            t.bytes() == be_bytes(trans_id),
    {
        TransactionID { trans_id, trans_id_bytes: to_be_bytes(trans_id) }
    }

    /// Reads a transaction id from its bytes: `None` unless there are exactly eight.
    pub fn from_bytes(bytes: &[u8]) -> (r: Option<TransactionID>)
        ensures
            r is Some <==> bytes@.len() == TRANSACTION_ID_BYTES,
            r matches Some(t) ==> t.value() == be_value(bytes@) && t.bytes() == bytes@,
    {
        if bytes.len() != TRANSACTION_ID_BYTES {
            return None;
        }
        let mut trans_id: u64 = 0;
        let mut i: usize = 0;
        while i < bytes.len()
            invariant
                bytes@.len() == 8,
                i <= 8,
                trans_id == be_prefix(bytes@, i as int),
            decreases 8 - i,
        {
            proof {
                lemma_be_prefix_bound(bytes@, i as int);
                reveal_with_fuel(pow256, 8);
                assert(pow256(i as int) <= pow256(7)) by {
                    lemma_pow256_mono(i as int, 7);
                }
            }
            trans_id = trans_id * 256 + bytes[i] as u64;
            i = i + 1;
        }
        let t = TransactionID::new(trans_id);
        proof {
            lemma_be_prefix_bound(bytes@, 8);
            lemma_be_bytes_unique(bytes@, trans_id);
        }
        Some(t)
    }

    /// The bytes of this id, big-endian.
    pub fn as_ref(&self) -> (r: &[u8])
        ensures
            r@ == self.bytes(),
            r@ == be_bytes(self.value()),
            be_value(r@) == self.value(),
    {
        proof {
            use_type_invariant(self);
            lemma_be_bytes_value(self.trans_id);
        }
        self.trans_id_bytes.as_slice()
    }

    /// Whether two ids are the same.
    pub fn same_as(&self, other: &TransactionID) -> (r: bool)
        ensures
            r == (*self == *other),
    {
        proof {
            use_type_invariant(self);
            use_type_invariant(other);
            if self.trans_id == other.trans_id {
                crate::dht::routing::node::lemma_array_eq(self.trans_id_bytes, other.trans_id_bytes);
            }
        }
        self.trans_id == other.trans_id
    }

    /// The action this id belongs to.
    pub fn action_id(&self) -> (a: ActionID)
        ensures
            a.value() == self.value() / 0x100_0000,
    {
        ActionID::from_transaction_id(self.trans_id)
    }

    /// The message this id stands for within its action.
    pub fn message_id(&self) -> (m: MessageID)
        ensures
            m.value() == self.value() % 0x100_0000,
    {
        MessageID::from_transaction_id(self.trans_id)
    }
}

/// Powers of 256 grow with the exponent.
proof fn lemma_pow256_mono(a: int, b: int)
    requires
        0 <= a <= b,
    ensures
        pow256(a) <= pow256(b),
    decreases b - a,
{
    if a < b {
        lemma_pow256_mono(a, b - 1);
    }
}

/// Two byte strings of one length with the same big-endian value are equal.
proof fn lemma_be_prefix_injective(s: Seq<u8>, t: Seq<u8>, n: int)
    requires
        0 <= n <= s.len(),
        n <= t.len(),
        be_prefix(s, n) == be_prefix(t, n),
    ensures
        s.subrange(0, n) == t.subrange(0, n),
    decreases n,
{
    if n > 0 {
        let a = be_prefix(s, n - 1) as int;
        let b = be_prefix(t, n - 1) as int;
        let c = s[n - 1] as int;
        let d = t[n - 1] as int;
        assert(a * 256 + c == b * 256 + d);
        assert(a == b && c == d);
        lemma_be_prefix_injective(s, t, n - 1);
        assert(s.subrange(0, n) =~= s.subrange(0, n - 1).push(s[n - 1]));
        assert(t.subrange(0, n) =~= t.subrange(0, n - 1).push(t[n - 1]));
    }
}

/// Eight bytes whose big-endian value is `x` are the big-endian bytes of `x`.
proof fn lemma_be_bytes_unique(s: Seq<u8>, x: u64)
    requires
        s.len() == 8,
        be_value(s) == x,
    ensures
        s == be_bytes(x),
{
    lemma_be_bytes_value(x);
    lemma_be_prefix_injective(s, be_bytes(x), 8);
    assert(s.subrange(0, 8) =~= s);
    assert(be_bytes(x).subrange(0, 8) =~= be_bytes(x));
}

/// The action part of a transaction id.
#[derive(Copy, Clone, PartialEq, Eq, Structural, Hash, Debug)]
pub struct ActionID {
    action_id: u64,
}

impl ActionID {
    /// The action id as a number.
    pub closed spec fn value(self) -> u64 {
        self.action_id
    }

    /// The action id as a number.
    pub fn value_of(&self) -> (r: u64)
        ensures
            r == self.value(),
    {
        self.action_id
    }

    fn from_transaction_id(trans_id: u64) -> (a: ActionID)
        ensures
            a.value() == trans_id / 0x100_0000,
    {
        ActionID { action_id: trans_id / 0x100_0000 }
    }
}

/// The message part of a transaction id.
#[derive(Copy, Clone, PartialEq, Eq, Structural, Hash, Debug)]
pub struct MessageID {
    message_id: u64,
}

impl MessageID {
    /// The message id as a number.
    pub closed spec fn value(self) -> u64 {
        self.message_id
    }

    fn from_transaction_id(trans_id: u64) -> (m: MessageID)
        ensures
            m.value() == trans_id % 0x100_0000,
    {
        MessageID { message_id: trans_id % MAX_MESSAGE_ID }
    }
}

/// The action part of transaction ids is their first five bytes and the message part their
/// last three: two ids `x` and `y` (sent as `be_bytes(x)` and `be_bytes(y)`) belong to the
/// same action exactly when their first five bytes agree, stand for the same message exactly
/// when their last three bytes agree, and are the same id exactly when both parts are.
pub proof fn lemma_id_parts_bytewise(x: u64, y: u64)
    ensures
        (x / 0x100_0000 == y / 0x100_0000) <==> be_bytes(x).subrange(0, 5) == be_bytes(y).subrange(0, 5),
        (x % 0x100_0000 == y % 0x100_0000) <==> be_bytes(x).subrange(5, 8) == be_bytes(y).subrange(5, 8),
        x == y <==> (x / 0x100_0000 == y / 0x100_0000 && x % 0x100_0000 == y % 0x100_0000),
{
    let bx = be_bytes(x);
    let by = be_bytes(y);
    assert((x / 0x100_0000 == y / 0x100_0000) <==> ((x >> 56u64) as u8 == (y >> 56u64) as u8 && ((x >> 48u64)
        & 0xffu64) as u8 == ((y >> 48u64) & 0xffu64) as u8 && ((x >> 40u64) & 0xffu64) as u8 == ((y >> 40u64)
        & 0xffu64) as u8 && ((x >> 32u64) & 0xffu64) as u8 == ((y >> 32u64) & 0xffu64) as u8 && ((x >> 24u64)
        & 0xffu64) as u8 == ((y >> 24u64) & 0xffu64) as u8)) by (bit_vector);
    assert((x % 0x100_0000 == y % 0x100_0000) <==> (((x >> 16u64) & 0xffu64) as u8 == ((y >> 16u64) & 0xffu64) as u8
        && ((x >> 8u64) & 0xffu64) as u8 == ((y >> 8u64) & 0xffu64) as u8 && (x & 0xffu64) as u8 == (y & 0xffu64) as u8))
        by (bit_vector);
    assert(x == y <==> (x / 0x100_0000 == y / 0x100_0000 && x % 0x100_0000 == y % 0x100_0000)) by (bit_vector);
    if bx.subrange(0, 5) == by.subrange(0, 5) {
        assert forall|i: int| 0 <= i < 5 implies bx[i] == by[i] by {
            assert(bx.subrange(0, 5)[i] == by.subrange(0, 5)[i]);
        }
    }
    if x / 0x100_0000 == y / 0x100_0000 {
        assert(bx.subrange(0, 5) =~= by.subrange(0, 5));
    }
    if bx.subrange(5, 8) == by.subrange(5, 8) {
        assert forall|i: int| 5 <= i < 8 implies bx[i] == by[i] by {
            assert(bx.subrange(5, 8)[i - 5] == by.subrange(5, 8)[i - 5]);
        }
    }
    if x % 0x100_0000 == y % 0x100_0000 {
        assert(bx.subrange(5, 8) =~= by.subrange(5, 8));
    }
}

/// Ids handed out one after another are all different while the id space does not wrap
/// around: when each id `ids[i]` is taken from the ids still to come, `pending[i]`, and
/// leaves them (`pending[i + 1]`), as `AIDGenerator::generate` and `MIDGenerator::generate`
/// state while ids are still to come, no id comes twice.
pub proof fn lemma_generated_ids_distinct(pending: Seq<Set<u64>>, ids: Seq<u64>)
    requires
        pending.len() == ids.len() + 1,
        forall|i: int| 0 <= i < ids.len() ==> #[trigger] pending[i].contains(ids[i]) && pending[i + 1] == pending[i].remove(ids[i]),
    ensures
        forall|i: int, j: int| 0 <= i < j < ids.len() ==> ids[i] != ids[j],
{
    assert forall|i: int, j: int| 0 <= i < j < ids.len() implies ids[i] != ids[j] by {
        lemma_taken_stays_out(pending, ids, i, j);
        assert(pending[j].contains(ids[j]));
    }
}

/// An id taken at step `i` is not among the ids still to come at any later step `j`.
proof fn lemma_taken_stays_out(pending: Seq<Set<u64>>, ids: Seq<u64>, i: int, j: int)
    requires
        pending.len() == ids.len() + 1,
        forall|k: int| 0 <= k < ids.len() ==> #[trigger] pending[k].contains(ids[k]) && pending[k + 1] == pending[k].remove(ids[k]),
        0 <= i < j <= ids.len(),
    ensures
        !pending[j].contains(ids[i]),
    decreases j - i,
{
    if j == i + 1 {
        assert(pending[i].contains(ids[i]));
    } else {
        lemma_taken_stays_out(pending, ids, i, j - 1);
        assert(pending[j - 1].contains(ids[j - 1]));
    }
}

} // verus!
