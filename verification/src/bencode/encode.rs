use vstd::prelude::*;

use crate::bencode::spec::{encode_bytes, encode_entries, encode_items, int_text, nat_digits, BValue};
use crate::bencode::BYTE_LEN_END;

verus! {

/// Appending lists of items appends their encodings.
pub proof fn lemma_encode_items_append(a: Seq<BValue>, b: Seq<BValue>)
    ensures
        encode_items(a + b) == encode_items(a) + encode_items(b),
    decreases a.len(),
{
    if a.len() == 0 {
        assert(a + b =~= b);
        assert(Seq::<u8>::empty() + encode_items(b) =~= encode_items(b));
    } else {
        assert((a + b).drop_first() =~= a.drop_first() + b);
        lemma_encode_items_append(a.drop_first(), b);
        assert(encode_items(a + b) =~= encode_items(a) + encode_items(b));
    }
}

/// Appending lists of entries appends their encodings.
pub proof fn lemma_encode_entries_append(a: Seq<(Seq<u8>, BValue)>, b: Seq<(Seq<u8>, BValue)>)
    ensures
        encode_entries(a + b) == encode_entries(a) + encode_entries(b),
    decreases a.len(),
{
    if a.len() == 0 {
        assert(a + b =~= b);
        assert(Seq::<u8>::empty() + encode_entries(b) =~= encode_entries(b));
    } else {
        assert((a + b).drop_first() =~= a.drop_first() + b);
        lemma_encode_entries_append(a.drop_first(), b);
        assert(encode_entries(a + b) =~= encode_entries(a) + encode_entries(b));
    }
}

/// The encoding of one item.
pub proof fn lemma_encode_items_single(v: BValue)
    ensures
        encode_items(seq![v]) == crate::bencode::spec::encode_value(v),
{
    assert(seq![v].drop_first() =~= Seq::<BValue>::empty());
    assert(seq![v][0] == v);
    assert(encode_items(Seq::<BValue>::empty()) == Seq::<u8>::empty());
    assert(crate::bencode::spec::encode_value(v) + Seq::<u8>::empty() =~= crate::bencode::spec::encode_value(v));
}

/// The encoding of one entry.
pub proof fn lemma_encode_entries_single(k: Seq<u8>, v: BValue)
    ensures
        encode_entries(seq![(k, v)]) == encode_bytes(k) + crate::bencode::spec::encode_value(v),
{
    let e = seq![(k, v)];
    assert(e.drop_first() =~= Seq::<(Seq<u8>, BValue)>::empty());
    assert(e[0] == (k, v));
    assert(encode_entries(Seq::<(Seq<u8>, BValue)>::empty()) == Seq::<u8>::empty());
    assert(encode_bytes(k) + crate::bencode::spec::encode_value(v) + Seq::<u8>::empty() =~= encode_bytes(k)
        + crate::bencode::spec::encode_value(v));
}

/// Adding an entry at the end adds its encoding at the end.
pub proof fn lemma_encode_entries_push(es: Seq<(Seq<u8>, BValue)>, k: Seq<u8>, v: BValue)
    ensures
        encode_entries(es.push((k, v))) == encode_entries(es) + encode_bytes(k) + crate::bencode::spec::encode_value(v),
{
    assert(es.push((k, v)) =~= es + seq![(k, v)]);
    lemma_encode_entries_append(es, seq![(k, v)]);
    lemma_encode_entries_single(k, v);
    assert(encode_entries(es) + (encode_bytes(k) + crate::bencode::spec::encode_value(v)) =~= encode_entries(es)
        + encode_bytes(k) + crate::bencode::spec::encode_value(v));
}

/// Adding an item at the end adds its encoding at the end.
pub proof fn lemma_encode_items_push(items: Seq<BValue>, v: BValue)
    ensures
        encode_items(items.push(v)) == encode_items(items) + crate::bencode::spec::encode_value(v),
{
    assert(items.push(v) =~= items + seq![v]);
    lemma_encode_items_append(items, seq![v]);
    lemma_encode_items_single(v);
}

/// Appends the decimal digits of `n`.
pub fn push_decimal(n: u64, out: &mut Vec<u8>)
    ensures
        final(out)@ == old(out)@ + nat_digits(n as nat),
    decreases n,
{
    if n >= 10 {
        push_decimal(n / 10, out);
    }
    let d: u8 = (n % 10) as u8;
    out.push(d + 48);
    proof {
        if n >= 10 {
            assert(nat_digits(n as nat) == nat_digits((n / 10) as nat).push((n % 10 + 48) as u8));
        } else {
            assert(nat_digits(n as nat) == seq![(n + 48) as u8]);
        }
    }
    assert(final(out)@ =~= old(out)@ + nat_digits(n as nat));
}

/// Appends the decimal text of `n`.
pub fn push_int_text(n: i64, out: &mut Vec<u8>)
    ensures
        final(out)@ == old(out)@ + int_text(n as int),
{
    if n < 0 {
        out.push(45u8);
        let m: i128 = 0i128 - (n as i128);
        push_decimal(m as u64, out);
        assert(final(out)@ =~= old(out)@ + int_text(n as int));
    } else {
        push_decimal(n as u64, out);
    }
}

/// Appends the bencode of a byte string.
pub fn push_bytes(b: &[u8], out: &mut Vec<u8>)
    ensures
        final(out)@ == old(out)@ + encode_bytes(b@),
{
    let ghost start = out@;
    push_decimal(b.len() as u64, out);
    out.push(BYTE_LEN_END);
    let ghost mid = out@;
    let mut i: usize = 0;
    while i < b.len()
        invariant
            i <= b@.len(),
            out@ == mid + b@.subrange(0, i as int),
        decreases b@.len() - i,
    {
        out.push(b[i]);
        assert(b@.subrange(0, i + 1) =~= b@.subrange(0, i as int).push(b@[i as int]));
        i = i + 1;
    }
    assert(b@.subrange(0, i as int) =~= b@);
    assert(out@ =~= start + encode_bytes(b@));
}

} // verus!
