use vstd::prelude::*;

use crate::bencode::order::{bytes_equal, lemma_lex_asymmetric, lemma_lex_total, lemma_lex_transitive, lex_less};
use crate::bencode::spec::{has_key, insert_entry, insert_pos, keys_sorted, lex_lt};

verus! {

/// Index of the entry with key `key`, if any.
pub open spec fn find_key<V>(entries: Seq<(Seq<u8>, V)>, key: Seq<u8>) -> Option<int>
    decreases entries.len(),
{
    if entries.len() == 0 {
        None
    } else if entries.last().0 == key {
        Some(entries.len() - 1)
    } else {
        find_key(entries.drop_last(), key)
    }
}

/// A bencode dictionary: byte-string keys, each present once, held in ascending key order.
pub struct BDict<V> {
    pub(crate) entries: Vec<(Vec<u8>, V)>,
}

impl<V> BDict<V> {
    /// The entries, keys as byte sequences, in ascending key order.
    pub closed spec fn kv(&self) -> Seq<(Seq<u8>, V)> {
        self.entries@.map_values(|e: (Vec<u8>, V)| (e.0@, e.1))
    }

    #[verifier::type_invariant]
    closed spec fn sorted(self) -> bool {
        keys_sorted(self.kv())
    }

    /// Inside the crate, the entries are those of the backing vector.
    pub(crate) proof fn lemma_kv(&self)
        ensures
            self.kv().len() == self.entries@.len(),
            forall|i: int|
                0 <= i < self.entries@.len() ==> #[trigger] self.kv()[i] == (self.entries@[i].0@, self.entries@[i].1),
    {
    }

    /// A dictionary holding `entries`, whose keys are already strictly increasing.
    pub(crate) fn from_sorted(entries: Vec<(Vec<u8>, V)>) -> (d: BDict<V>)
        requires
            keys_sorted(entries@.map_values(|e: (Vec<u8>, V)| (e.0@, e.1))),
        ensures
            d.kv() == entries@.map_values(|e: (Vec<u8>, V)| (e.0@, e.1)),
    {
        BDict { entries }
    }

    /// Creates an empty dictionary.
    pub fn new() -> (d: BDict<V>)
        ensures
            d.kv() == Seq::<(Seq<u8>, V)>::empty(),
    {
        let d = BDict { entries: Vec::new() };
        assert(d.kv() =~= Seq::<(Seq<u8>, V)>::empty());
        d
    }

    /// Number of entries; the keys are strictly increasing.
    pub fn len(&self) -> (n: usize)
        ensures
            n == self.kv().len(),
            keys_sorted(self.kv()),
    {
        proof {
            use_type_invariant(self);
        }
        self.entries.len()
    }

    /// The entry at position `index` in key order.
    pub fn entry(&self, index: usize) -> (r: (&[u8], &V))
        requires
            index < self.kv().len(),
        ensures
            r.0@ == self.kv()[index as int].0,
            *r.1 == self.kv()[index as int].1,
    {
        let e = &self.entries[index];
        (e.0.as_slice(), &e.1)
    }

    /// The entries, keys with references to their values, in key order.
    pub fn to_list(&self) -> (r: Vec<(&[u8], &V)>)
        ensures
            r@.len() == self.kv().len(),
            forall|i: int| 0 <= i < r@.len() ==> (#[trigger] r@[i]).0@ == self.kv()[i].0 && *r@[i].1 == self.kv()[i].1,
    {
        let mut out: Vec<(&[u8], &V)> = Vec::new();
        let mut i: usize = 0;
        while i < self.entries.len()
            invariant
                i <= self.entries@.len(),
                self.kv().len() == self.entries@.len(),
                out@.len() == i,
                forall|k: int| 0 <= k < i ==> (#[trigger] out@[k]).0@ == self.kv()[k].0 && *out@[k].1 == self.kv()[k].1,
            decreases self.entries@.len() - i,
        {
            let e = &self.entries[i];
            out.push((e.0.as_slice(), &e.1));
            i = i + 1;
        }
        out
    }

    /// The greatest key, if the dictionary is not empty.
    pub fn last_key(&self) -> (r: Option<&[u8]>)
        ensures
            r is None <==> self.kv().len() == 0,
            r matches Some(k) ==> k@ == self.kv().last().0,
    {
        let n = self.entries.len();
        if n == 0 {
            None
        } else {
            Some(self.entries[n - 1].0.as_slice())
        }
    }

    /// The value stored under `key`, if any.
    pub fn lookup(&self, key: &[u8]) -> (r: Option<&V>)
        ensures
            r is None <==> find_key(self.kv(), key@) is None,
            r matches Some(v) ==> *v == self.kv()[find_key(self.kv(), key@)->0].1,
    {
        let n = self.entries.len();
        let mut i = n;
        assert(self.kv().subrange(0, n as int) =~= self.kv());
        while i > 0
            invariant
                i <= n,
                n == self.kv().len(),
                find_key(self.kv(), key@) == find_key(self.kv().subrange(0, i as int), key@),
            decreases i,
        {
            let ghost sub = self.kv().subrange(0, i as int);
            assert(sub.drop_last() =~= self.kv().subrange(0, i - 1));
            if bytes_equal(self.entries[i - 1].0.as_slice(), key) {
                return Some(&self.entries[i - 1].1);
            }
            i = i - 1;
        }
        None
    }

    /// Position of the first entry whose key is not smaller than `key`.
    fn search(&self, key: &[u8]) -> (i: usize)
        ensures
            i <= self.kv().len(),
            i == insert_pos(self.kv(), key@),
            forall|j: int| 0 <= j < i ==> lex_lt(#[trigger] self.kv()[j].0, key@),
            i < self.kv().len() ==> !lex_lt(self.kv()[i as int].0, key@),
    {
        let n = self.entries.len();
        let mut i: usize = 0;
        assert(self.kv().skip(0) =~= self.kv());
        while i < n && lex_less(self.entries[i].0.as_slice(), key)
            invariant
                i <= n,
                n == self.kv().len(),
                forall|j: int| 0 <= j < i ==> lex_lt(#[trigger] self.kv()[j].0, key@),
                insert_pos(self.kv(), key@) == i + insert_pos(self.kv().skip(i as int), key@),
            decreases n - i,
        {
            assert(self.kv().skip(i as int).drop_first() =~= self.kv().skip(i + 1));
            i = i + 1;
        }
        i
    }

    /// Puts `value` under `key`, giving back the value it replaces.
    pub fn insert(&mut self, key: Vec<u8>, value: V) -> (r: Option<V>)
        ensures
            final(self).kv() == put_entry(old(self).kv(), key@, value),
            has_key(old(self).kv(), key@) ==> r == Some(old(self).kv()[find_key(old(self).kv(), key@)->0].1),
            !has_key(old(self).kv(), key@) ==> r is None,
    {
        proof {
            use_type_invariant(&*self);
        }
        let ghost old_kv = self.kv();
        let i = self.search(key.as_slice());
        let mut entries: Vec<(Vec<u8>, V)> = Vec::new();
        std::mem::swap(&mut entries, &mut self.entries);
        assert(entries@.map_values(|e: (Vec<u8>, V)| (e.0@, e.1)) == old_kv);
        if i < entries.len() && bytes_equal(entries[i].0.as_slice(), key.as_slice()) {
            proof {
                lemma_find_sorted_index(old_kv, key@, i as int);
            }
            let (_, old_value) = entries.remove(i);
            entries.insert(i, (key, value));
            proof {
                let nk = old_kv.update(i as int, (key@, value));
                assert(entries@.map_values(|e: (Vec<u8>, V)| (e.0@, e.1)) =~= nk);
                assert forall|a: int, b: int| 0 <= a < b < nk.len() implies lex_lt(#[trigger] nk[a].0, #[trigger] nk[b].0) by {
                    assert(nk[a].0 == old_kv[a].0);
                    assert(nk[b].0 == old_kv[b].0);
                }
            }
            self.entries = entries;
            assert(self.kv() =~= old_kv.update(i as int, (key@, value)));
            Some(old_value)
        } else {
            proof {
                lemma_absent_at_insert_pos(old_kv, key@, i as int);
                lemma_insert_keeps_sorted(old_kv, key@, value, i as int);
            }
            entries.insert(i, (key, value));
            assert(entries@.map_values(|e: (Vec<u8>, V)| (e.0@, e.1)) =~= insert_entry(old_kv, key@, value));
            self.entries = entries;
            assert(self.kv() =~= insert_entry(old_kv, key@, value));
            None
        }
    }

    /// Takes out the value stored under `key`, if any.
    pub fn remove(&mut self, key: &[u8]) -> (r: Option<V>)
        ensures
            has_key(old(self).kv(), key@) ==> {
                let i = find_key(old(self).kv(), key@)->0;
                &&& r == Some(old(self).kv()[i].1)
                &&& final(self).kv() == old(self).kv().remove(i)
            },
            !has_key(old(self).kv(), key@) ==> r is None && final(self).kv() == old(self).kv(),
    {
        proof {
            use_type_invariant(&*self);
        }
        let ghost old_kv = self.kv();
        let i = self.search(key);
        if i < self.entries.len() && bytes_equal(self.entries[i].0.as_slice(), key) {
            proof {
                lemma_find_sorted_index(old_kv, key@, i as int);
            }
            let mut entries: Vec<(Vec<u8>, V)> = Vec::new();
            std::mem::swap(&mut entries, &mut self.entries);
            assert(entries@.map_values(|e: (Vec<u8>, V)| (e.0@, e.1)) == old_kv);
            let (_, old_value) = entries.remove(i);
            proof {
                assert forall|a: int, b: int| 0 <= a < b < old_kv.len() - 1 implies lex_lt(
                    #[trigger] old_kv.remove(i as int)[a].0,
                    #[trigger] old_kv.remove(i as int)[b].0,
                ) by {
                    let a2 = if a < i { a } else { a + 1 };
                    let b2 = if b < i { b } else { b + 1 };
                    assert(lex_lt(old_kv[a2].0, old_kv[b2].0));
                }
                assert(entries@.map_values(|e: (Vec<u8>, V)| (e.0@, e.1)) =~= old_kv.remove(i as int));
            }
            self.entries = entries;
            assert(self.kv() =~= old_kv.remove(i as int));
            Some(old_value)
        } else {
            proof {
                lemma_absent_at_insert_pos(old_kv, key@, i as int);
            }
            None
        }
    }
}

/// `find_key` gives an index holding the key, and finds every key present.
pub proof fn lemma_find_key<V>(entries: Seq<(Seq<u8>, V)>, key: Seq<u8>)
    ensures
        find_key(entries, key) matches Some(i) ==> 0 <= i < entries.len() && entries[i].0 == key,
        find_key(entries, key) is None <==> !has_key(entries, key),
    decreases entries.len(),
{
    if entries.len() > 0 {
        lemma_find_key(entries.drop_last(), key);
        if has_key(entries, key) && entries.last().0 != key {
            let j = choose|j: int| 0 <= j < entries.len() && #[trigger] entries[j].0 == key;
            assert(entries.drop_last()[j].0 == key);
        }
        if has_key(entries.drop_last(), key) {
            let j = choose|j: int| 0 <= j < entries.len() - 1 && #[trigger] entries.drop_last()[j].0 == key;
            assert(entries[j].0 == key);
        }
    }
}

/// In sorted entries, a key appears at one index only.
pub proof fn lemma_find_sorted_index<V>(entries: Seq<(Seq<u8>, V)>, key: Seq<u8>, i: int)
    requires
        keys_sorted(entries),
        0 <= i < entries.len(),
        entries[i].0 == key,
    ensures
        has_key(entries, key),
        find_key(entries, key) == Some(i),
{
    lemma_find_key(entries, key);
    let j = find_key(entries, key)->0;
    if j != i {
        if j < i {
            assert(lex_lt(entries[j].0, entries[i].0));
        } else {
            assert(lex_lt(entries[i].0, entries[j].0));
        }
        crate::bencode::order::lemma_lex_irreflexive(key);
    }
}

/// In sorted entries, a key that is neither below the entries before `i` nor equal to the
/// one at `i` is absent.
pub(crate) proof fn lemma_absent_at_insert_pos<V>(entries: Seq<(Seq<u8>, V)>, key: Seq<u8>, i: int)
    requires
        keys_sorted(entries),
        0 <= i <= entries.len(),
        forall|j: int| 0 <= j < i ==> lex_lt(#[trigger] entries[j].0, key),
        i < entries.len() ==> !lex_lt(entries[i].0, key) && entries[i].0 != key,
    ensures
        !has_key(entries, key),
        i < entries.len() ==> lex_lt(key, entries[i].0),
{
    if i < entries.len() {
        lemma_lex_total(entries[i].0, key);
    }
    if has_key(entries, key) {
        let j = choose|j: int| 0 <= j < entries.len() && #[trigger] entries[j].0 == key;
        if j < i {
            crate::bencode::order::lemma_lex_irreflexive(key);
        } else {
            assert(j != i);
            assert(lex_lt(entries[i].0, entries[j].0));
            lemma_lex_asymmetric(key, entries[i].0);
        }
    }
}

/// Putting a new key at its place keeps the keys strictly increasing.
pub(crate) proof fn lemma_insert_keeps_sorted<V>(entries: Seq<(Seq<u8>, V)>, key: Seq<u8>, value: V, i: int)
    requires
        keys_sorted(entries),
        0 <= i <= entries.len(),
        forall|j: int| 0 <= j < i ==> lex_lt(#[trigger] entries[j].0, key),
        i < entries.len() ==> lex_lt(key, entries[i].0),
    ensures
        keys_sorted(entries.insert(i, (key, value))),
{
    let e2 = entries.insert(i, (key, value));
    assert forall|a: int, b: int| 0 <= a < b < e2.len() implies lex_lt(#[trigger] e2[a].0, #[trigger] e2[b].0) by {
        if a < i && b < i {
            assert(lex_lt(entries[a].0, entries[b].0));
        } else if a < i && b == i {
        } else if a < i {
            assert(lex_lt(entries[a].0, key));
            assert(lex_lt(key, entries[i].0));
            lemma_lex_transitive(entries[a].0, key, entries[i].0);
            if b - 1 > i {
                assert(lex_lt(entries[i].0, entries[b - 1].0));
                lemma_lex_transitive(entries[a].0, entries[i].0, entries[b - 1].0);
            }
        } else if a == i {
            if b - 1 > i {
                assert(lex_lt(entries[i].0, entries[b - 1].0));
                lemma_lex_transitive(key, entries[i].0, entries[b - 1].0);
            }
        } else {
            assert(lex_lt(entries[a - 1].0, entries[b - 1].0));
        }
    }
}


/// The entries after putting `value` under `key`: the value of the key is replaced if it is
/// present, else a new entry goes in its place in key order.
pub open spec fn put_entry<V>(entries: Seq<(Seq<u8>, V)>, key: Seq<u8>, value: V) -> Seq<(Seq<u8>, V)> {
    if has_key(entries, key) {
        entries.update(find_key(entries, key)->0, (key, value))
    } else {
        insert_entry(entries, key, value)
    }
}

/// The keys before `insert_pos` are smaller than `key`, and the one at it is not.
pub(crate) proof fn lemma_insert_pos<V>(entries: Seq<(Seq<u8>, V)>, key: Seq<u8>)
    ensures
        insert_pos(entries, key) <= entries.len(),
        forall|j: int| 0 <= j < insert_pos(entries, key) ==> lex_lt(#[trigger] entries[j].0, key),
        insert_pos(entries, key) < entries.len() ==> !lex_lt(entries[insert_pos(entries, key) as int].0, key),
    decreases entries.len(),
{
    if entries.len() > 0 && lex_lt(entries[0].0, key) {
        let rest = entries.drop_first();
        lemma_insert_pos(rest, key);
        assert forall|j: int| 0 <= j < insert_pos(entries, key) implies lex_lt(#[trigger] entries[j].0, key) by {
            if j > 0 {
                assert(entries[j] == rest[j - 1]);
            }
        }
        if insert_pos(entries, key) < entries.len() {
            assert(entries[insert_pos(entries, key) as int] == rest[insert_pos(rest, key) as int]);
        }
    }
}

/// Putting a value under a key keeps the keys strictly increasing; reading the key back
/// gives the value, and every other key keeps its presence and its value.
pub proof fn lemma_put_then_lookup<V>(entries: Seq<(Seq<u8>, V)>, key: Seq<u8>, value: V, other: Seq<u8>)
    requires
        keys_sorted(entries),
    ensures
        keys_sorted(put_entry(entries, key, value)),
        find_key(put_entry(entries, key, value), key) matches Some(i) && put_entry(entries, key, value)[i].1
            == value,
        other != key ==> (has_key(put_entry(entries, key, value), other) <==> has_key(entries, other)),
        other != key && has_key(entries, other) ==> put_entry(entries, key, value)[find_key(
            put_entry(entries, key, value),
            other,
        )->0].1 == entries[find_key(entries, other)->0].1,
{
    let e2 = put_entry(entries, key, value);
    lemma_find_key(entries, key);
    lemma_find_key(entries, other);
    if has_key(entries, key) {
        let i = find_key(entries, key)->0;
        assert forall|a: int, b: int| 0 <= a < b < e2.len() implies lex_lt(#[trigger] e2[a].0, #[trigger] e2[b].0) by {
            assert(e2[a].0 == entries[a].0);
            assert(e2[b].0 == entries[b].0);
        }
        lemma_find_sorted_index(e2, key, i);
        if other != key && has_key(entries, other) {
            let j = find_key(entries, other)->0;
            assert(j != i);
            assert(e2[j] == entries[j]);
            lemma_find_sorted_index(e2, other, j);
        }
        if other != key && has_key(e2, other) {
            let j = choose|j: int| 0 <= j < e2.len() && #[trigger] e2[j].0 == other;
            assert(j != i);
            assert(entries[j].0 == other);
        }
    } else {
        let p = insert_pos(entries, key) as int;
        lemma_insert_pos(entries, key);
        if p < entries.len() {
            assert(entries[p].0 != key);
        }
        lemma_absent_at_insert_pos(entries, key, p);
        lemma_insert_keeps_sorted(entries, key, value, p);
        assert(e2 == entries.insert(p, (key, value)));
        assert(e2[p] == (key, value));
        lemma_find_sorted_index(e2, key, p);
        if other != key && has_key(entries, other) {
            let j = find_key(entries, other)->0;
            let j2 = if j < p { j } else { j + 1 };
            assert(e2[j2] == entries[j]);
            lemma_find_sorted_index(e2, other, j2);
        }
        if other != key && has_key(e2, other) {
            let j = choose|j: int| 0 <= j < e2.len() && #[trigger] e2[j].0 == other;
            assert(j != p);
            if j < p {
                assert(entries[j].0 == other);
            } else {
                assert(entries[j - 1].0 == other);
            }
        }
    }
}

} // verus!
