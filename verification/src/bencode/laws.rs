use vstd::prelude::*;

use crate::bencode::dict::{lemma_absent_at_insert_pos, lemma_insert_keeps_sorted, lemma_insert_pos};
use crate::bencode::order::{lemma_lex_asymmetric, lemma_lex_irreflexive};
use crate::bencode::spec::{
    all_digits, dec, dec_bytes, dec_dict, dec_int, dec_list, decode_full, decode_ref, depth_entries, depth_items,
    depth_value, digits_value, encode_bytes, encode_entries, encode_items, encode_value, find_byte, full_opts,
    has_key, insert_entry, insert_pos, int_text, is_digit, keys_sorted, lex_lt, nat_digits, parse_i64, ref_buffer,
    strip, wf_value, BValue, DecodeOpts, ParseFailure, RefView,
};

verus! {

// ---------------------------------------------------------------------------
// Decimal text
// ---------------------------------------------------------------------------

/// The decimal text of a number is a non-empty run of digits that reads back as the number,
/// with no leading zero unless the number is zero.
proof fn lemma_nat_digits(n: nat)
    ensures
        nat_digits(n).len() >= 1,
        all_digits(nat_digits(n)),
        digits_value(nat_digits(n)) == n,
        n >= 1 ==> nat_digits(n)[0] != 48u8,
        nat_digits(n).len() > 1 ==> n >= 10,
    decreases n,
{
    if n >= 10 {
        let t = nat_digits(n / 10);
        lemma_nat_digits(n / 10);
        let d = (n % 10 + 48) as u8;
        assert(nat_digits(n) == t.push(d));
        assert(t.push(d).drop_last() =~= t);
        assert(d - 48 == n % 10);
        assert(digits_value(t.push(d)) == digits_value(t) * 10 + (n % 10));
        assert((n / 10) * 10 + n % 10 == n) by (nonlinear_arith);
        assert(t.push(d)[0] == t[0]);
        assert forall|i: int| 0 <= i < t.push(d).len() implies is_digit(#[trigger] t.push(d)[i]) by {
            if i < t.len() {
                assert(is_digit(t[i]));
            }
        }
    } else {
        let t = nat_digits(n);
        assert(t == seq![(n + 48) as u8]);
        assert(t.drop_last() =~= Seq::<u8>::empty());
        assert(digits_value(t.drop_last()) == 0);
        assert(t.last() - 48 == n);
    }
}

/// The decimal text of an integer, read as a base-ten `i64`, gives the integer back.
proof fn lemma_int_text(n: int)
    requires
        i64::MIN <= n <= i64::MAX,
    ensures
        parse_i64(int_text(n)) == Some(n),
        int_text(n).len() >= 1,
        forall|i: int| 0 <= i < int_text(n).len() ==> is_digit(#[trigger] int_text(n)[i]) || int_text(n)[i] == 45u8,
        !(int_text(n).len() > 1 && int_text(n)[0] == 45u8 && int_text(n)[1] == 48u8),
        !(int_text(n).len() > 1 && int_text(n)[0] == 48u8),
{
    if n < 0 {
        let m = (-n) as nat;
        lemma_nat_digits(m);
        let t = int_text(n);
        assert(t == seq![45u8] + nat_digits(m));
        assert(t.drop_first() =~= nat_digits(m));
        assert(t[1] == nat_digits(m)[0]);
        assert forall|i: int| 0 <= i < t.len() implies is_digit(#[trigger] t[i]) || t[i] == 45u8 by {
            if i > 0 {
                assert(t[i] == nat_digits(m)[i - 1]);
            }
        }
    } else {
        lemma_nat_digits(n as nat);
    }
}

// ---------------------------------------------------------------------------
// Reading back integers and byte strings
// ---------------------------------------------------------------------------

/// The first `b` at or after `pos` is at `e` when no byte in between is `b`.
proof fn lemma_find_byte_at(s: Seq<u8>, pos: int, e: int, b: u8)
    requires
        0 <= pos <= e < s.len(),
        s[e] == b,
        forall|i: int| pos <= i < e ==> s[i] != b,
    ensures
        find_byte(s, pos, b) == Some(e),
    decreases e - pos,
{
    if pos < e {
        lemma_find_byte_at(s, pos + 1, e, b);
    }
}

/// Reading the decimal text of `n` that ends at a `delim` gives `n` back.
proof fn lemma_dec_int_text(s: Seq<u8>, pos: int, n: int, delim: u8)
    requires
        i64::MIN <= n <= i64::MAX,
        0 <= pos,
        pos + int_text(n).len() < s.len(),
        s.subrange(pos, pos + int_text(n).len()) == int_text(n),
        s[pos + int_text(n).len()] == delim,
        !is_digit(delim),
        delim != 45u8,
    ensures
        dec_int(s, pos, delim) == Ok::<(int, int), crate::bencode::spec::ParseFailure>(
            (n, pos + int_text(n).len() + 1),
        ),
{
    lemma_int_text(n);
    let t = int_text(n);
    let e = pos + t.len();
    assert forall|i: int| pos <= i < e implies s[i] != delim by {
        assert(s[i] == s.subrange(pos, e)[i - pos]);
        assert(is_digit(t[i - pos]) || t[i - pos] == 45u8);
    }
    lemma_find_byte_at(s, pos, e, delim);
}

/// Reading the bencode of a byte string gives the byte string back.
proof fn lemma_dec_encoded_bytes(s: Seq<u8>, pos: int, b: Seq<u8>)
    requires
        0 <= pos,
        pos + encode_bytes(b).len() <= s.len(),
        s.subrange(pos, pos + encode_bytes(b).len()) == encode_bytes(b),
        b.len() <= i64::MAX,
    ensures
        dec_bytes(s, pos) == Ok::<(Seq<u8>, int), crate::bencode::spec::ParseFailure>(
            (b, pos + encode_bytes(b).len()),
        ),
{
    let t = nat_digits(b.len());
    let enc = encode_bytes(b);
    let l = t.len() as int;
    assert(int_text(b.len() as int) == t);
    assert(enc == t + seq![58u8] + b);
    assert(s.subrange(pos, pos + l) =~= t) by {
        assert forall|i: int| 0 <= i < l implies s.subrange(pos, pos + l)[i] == t[i] by {
            assert(s.subrange(pos, pos + enc.len())[i] == enc[i]);
        }
    }
    assert(s[pos + l] == 58u8) by {
        assert(s.subrange(pos, pos + enc.len())[l] == enc[l]);
    }
    lemma_dec_int_text(s, pos, b.len() as int, 58u8);
    let start = pos + l + 1;
    assert(s.subrange(start, start + b.len()) =~= b) by {
        assert forall|i: int| 0 <= i < b.len() implies s.subrange(start, start + b.len())[i] == b[i] by {
            assert(s.subrange(pos, pos + enc.len())[l + 1 + i] == enc[l + 1 + i]);
        }
    }
}

// ---------------------------------------------------------------------------
// Reading back whole values
// ---------------------------------------------------------------------------

/// `enc` stands in `s` from `pos` on.
spec fn encoded_at(s: Seq<u8>, pos: int, enc: Seq<u8>) -> bool {
    0 <= pos && pos + enc.len() <= s.len() && s.subrange(pos, pos + enc.len()) == enc
}

/// A part of an encoding that stands in `s` stands there too.
proof fn lemma_encoded_part(s: Seq<u8>, pos: int, enc: Seq<u8>, off: int, part: Seq<u8>)
    requires
        encoded_at(s, pos, enc),
        0 <= off,
        off + part.len() <= enc.len(),
        enc.subrange(off, off + part.len()) == part,
    ensures
        encoded_at(s, pos + off, part),
{
    assert(s.subrange(pos + off, pos + off + part.len()) =~= part) by {
        assert forall|i: int| 0 <= i < part.len() implies s.subrange(pos + off, pos + off + part.len())[i]
            == part[i] by {
            assert(s.subrange(pos, pos + enc.len())[off + i] == enc[off + i]);
            assert(enc.subrange(off, off + part.len())[i] == enc[off + i]);
        }
    }
}

/// An encoded value is never empty and never starts with the end marker.
proof fn lemma_encode_value_first(v: BValue)
    ensures
        encode_value(v).len() >= 1,
        encode_value(v)[0] != 101u8,
{
    match v {
        BValue::Bytes(b) => {
            lemma_nat_digits(b.len());
            assert(encode_value(v)[0] == nat_digits(b.len())[0]);
            assert(is_digit(nat_digits(b.len())[0]));
        },
        _ => {},
    }
}

/// When every key held is smaller than `key`, a new entry for `key` goes at the end.
proof fn lemma_insert_pos_end<V>(entries: Seq<(Seq<u8>, V)>, key: Seq<u8>)
    requires
        forall|i: int| 0 <= i < entries.len() ==> lex_lt(#[trigger] entries[i].0, key),
    ensures
        insert_pos(entries, key) == entries.len(),
    decreases entries.len(),
{
    if entries.len() > 0 {
        let rest = entries.drop_first();
        assert forall|i: int| 0 <= i < rest.len() implies lex_lt(#[trigger] rest[i].0, key) by {
            assert(rest[i] == entries[i + 1]);
        }
        lemma_insert_pos_end(rest, key);
        assert(lex_lt(entries[0].0, key));
    }
}

/// Decoding the bencode of a value gives a node that stands for the value and spans exactly
/// its encoding.
proof fn lemma_dec_value(s: Seq<u8>, pos: int, opts: DecodeOpts, depth: int, v: BValue)
    requires
        wf_value(v),
        encoded_at(s, pos, encode_value(v)),
        s.len() <= i64::MAX,
        0 <= depth,
        depth + depth_value(v) < opts.max_recursion,
    ensures
        dec(s, pos, opts, depth) matches Ok((r, next)) && next == pos + encode_value(v).len() && strip(r) == v
            && ref_buffer(r) == s.subrange(pos, next),
    decreases v, 0nat,
{
    let enc = encode_value(v);
    assert(s[pos] == enc[0]) by {
        lemma_encode_value_first(v);
        assert(s.subrange(pos, pos + enc.len())[0] == enc[0]);
    }
    match v {
        BValue::Int(n) => {
            let t = int_text(n);
            assert(enc == seq![105u8] + t + seq![101u8]);
            assert(enc.subrange(1, 1 + t.len() as int) =~= t);
            lemma_encoded_part(s, pos, enc, 1, t);
            assert(s[pos + 1 + t.len()] == 101u8) by {
                assert(s.subrange(pos, pos + enc.len())[1 + t.len() as int] == enc[1 + t.len() as int]);
            }
            lemma_dec_int_text(s, pos + 1, n, 101u8);
        },
        BValue::Bytes(b) => {
            lemma_nat_digits(b.len());
            assert(enc[0] == nat_digits(b.len())[0]);
            assert(is_digit(nat_digits(b.len())[0]));
            lemma_dec_encoded_bytes(s, pos, b);
        },
        BValue::List(items) => {
            let body = encode_items(items) + seq![101u8];
            assert(enc == seq![108u8] + encode_items(items) + seq![101u8]);
            assert(enc.subrange(1, 1 + body.len() as int) =~= body);
            lemma_encoded_part(s, pos, enc, 1, body);
            assert forall|i: int| 0 <= i < items.len() implies wf_value(#[trigger] items[i]) by {}
            lemma_dec_items(s, pos + 1, opts, depth + 1, Seq::empty(), items);
            let (rs, next) = dec_list(s, pos + 1, opts, depth + 1, Seq::empty())->Ok_0;
            let e = Seq::<RefView>::empty();
            let sv = strip(RefView::List(rs, s.subrange(pos, next)));
            assert(sv->List_0 =~= items) by {
                assert forall|i: int| 0 <= i < items.len() implies sv->List_0[i] == items[i] by {
                    assert(strip(rs[e.len() + i]) == items[i]);
                }
            }
        },
        BValue::Dict(entries) => {
            let body = encode_entries(entries) + seq![101u8];
            assert(enc == seq![100u8] + encode_entries(entries) + seq![101u8]);
            assert(enc.subrange(1, 1 + body.len() as int) =~= body);
            lemma_encoded_part(s, pos, enc, 1, body);
            assert forall|i: int| 0 <= i < entries.len() implies wf_value(#[trigger] entries[i].1) by {}
            lemma_dec_entries(s, pos + 1, opts, depth + 1, Seq::empty(), entries);
            let (rs, next) = dec_dict(s, pos + 1, opts, depth + 1, Seq::empty())->Ok_0;
            let e = Seq::<(Seq<u8>, RefView)>::empty();
            let sv = strip(RefView::Dict(rs, s.subrange(pos, next)));
            assert(sv->Dict_0 =~= entries) by {
                assert forall|i: int| 0 <= i < entries.len() implies sv->Dict_0[i] == entries[i] by {
                    assert(rs[e.len() + i].0 == entries[i].0);
                    assert(strip(rs[e.len() + i].1) == entries[i].1);
                }
            }
        },
    }
}

/// Decoding the concatenated bencode of list items, then the end marker, reads every item.
proof fn lemma_dec_items(
    s: Seq<u8>,
    pos: int,
    opts: DecodeOpts,
    depth: int,
    acc: Seq<RefView>,
    items: Seq<BValue>,
)
    requires
        forall|i: int| 0 <= i < items.len() ==> wf_value(#[trigger] items[i]),
        encoded_at(s, pos, encode_items(items) + seq![101u8]),
        s.len() <= i64::MAX,
        0 <= depth,
        depth + depth_items(items) < opts.max_recursion,
    ensures
        dec_list(s, pos, opts, depth, acc) matches Ok((rs, next)) && next == pos + encode_items(items).len() + 1
            && rs.len() == acc.len() + items.len() && (forall|i: int| 0 <= i < acc.len() ==> rs[i] == acc[i])
            && (forall|i: int| 0 <= i < items.len() ==> strip(#[trigger] rs[acc.len() + i]) == items[i]),
    decreases items, 1nat,
{
    let body = encode_items(items) + seq![101u8];
    if items.len() == 0 {
        assert(s[pos] == 101u8) by {
            assert(s.subrange(pos, pos + body.len())[0] == body[0]);
        }
    } else {
        let v = items[0];
        let rest = items.drop_first();
        let ev = encode_value(v);
        let rbody = encode_items(rest) + seq![101u8];
        assert(body =~= ev + rbody);
        lemma_encode_value_first(v);
        assert(body.subrange(0, ev.len() as int) =~= ev);
        lemma_encoded_part(s, pos, body, 0, ev);
        assert(s[pos] != 101u8) by {
            assert(s.subrange(pos, pos + ev.len())[0] == ev[0]);
        }
        lemma_dec_value(s, pos, opts, depth, v);
        let (r, next) = dec(s, pos, opts, depth)->Ok_0;
        assert(body.subrange(ev.len() as int, ev.len() + rbody.len() as int) =~= rbody);
        lemma_encoded_part(s, pos, body, ev.len() as int, rbody);
        assert forall|i: int| 0 <= i < rest.len() implies wf_value(#[trigger] rest[i]) by {
            assert(rest[i] == items[i + 1]);
        }
        lemma_dec_items(s, next, opts, depth, acc.push(r), rest);
        let (rs, end) = dec_list(s, next, opts, depth, acc.push(r))->Ok_0;
        assert forall|i: int| 0 <= i < items.len() implies strip(#[trigger] rs[acc.len() + i]) == items[i] by {
            if i == 0 {
                assert(rs[acc.len() as int] == acc.push(r)[acc.len() as int]);
            } else {
                assert(rs[acc.len() + i] == rs[acc.push(r).len() + (i - 1)]);
                assert(rest[i - 1] == items[i]);
            }
        }
        assert forall|i: int| 0 <= i < acc.len() implies rs[i] == acc[i] by {
            assert(rs[i] == acc.push(r)[i]);
        }
    }
}

/// Decoding the concatenated bencode of dictionary entries with keys in order, then the end
/// marker, reads every entry and appends it after those read before.
proof fn lemma_dec_entries(
    s: Seq<u8>,
    pos: int,
    opts: DecodeOpts,
    depth: int,
    acc: Seq<(Seq<u8>, RefView)>,
    entries: Seq<(Seq<u8>, BValue)>,
)
    requires
        keys_sorted(entries),
        forall|i: int| 0 <= i < entries.len() ==> wf_value(#[trigger] entries[i].1),
        forall|i: int, j: int|
            0 <= i < acc.len() && 0 <= j < entries.len() ==> lex_lt(#[trigger] acc[i].0, #[trigger] entries[j].0),
        encoded_at(s, pos, encode_entries(entries) + seq![101u8]),
        s.len() <= i64::MAX,
        0 <= depth,
        depth + depth_entries(entries) < opts.max_recursion,
    ensures
        dec_dict(s, pos, opts, depth, acc) matches Ok((rs, next)) && next == pos + encode_entries(entries).len() + 1
            && rs.len() == acc.len() + entries.len() && (forall|i: int| 0 <= i < acc.len() ==> rs[i] == acc[i])
            && (forall|i: int|
            0 <= i < entries.len() ==> (#[trigger] rs[acc.len() + i]).0 == entries[i].0 && strip(
                rs[acc.len() + i].1,
            ) == entries[i].1),
    decreases entries, 1nat,
{
    let body = encode_entries(entries) + seq![101u8];
    if entries.len() == 0 {
        assert(s[pos] == 101u8) by {
            assert(s.subrange(pos, pos + body.len())[0] == body[0]);
        }
    } else {
        let key = entries[0].0;
        let v = entries[0].1;
        let rest = entries.drop_first();
        let eb = encode_bytes(key);
        let ev = encode_value(v);
        let rbody = encode_entries(rest) + seq![101u8];
        assert(body =~= eb + ev + rbody);
        lemma_nat_digits(key.len());
        assert(eb[0] == nat_digits(key.len())[0]);
        assert(is_digit(eb[0]));
        assert(body.subrange(0, eb.len() as int) =~= eb);
        lemma_encoded_part(s, pos, body, 0, eb);
        assert(s[pos] != 101u8) by {
            assert(s.subrange(pos, pos + eb.len())[0] == eb[0]);
        }
        assert(key.len() <= s.len()) by {
            assert(eb.len() == nat_digits(key.len()).len() + 1 + key.len());
        }
        lemma_dec_encoded_bytes(s, pos, key);
        let kend = pos + eb.len();
        if acc.len() > 0 {
            assert(lex_lt(acc[acc.len() - 1].0, entries[0].0));
            lemma_lex_asymmetric(key, acc.last().0);
        }
        assert(body.subrange(eb.len() as int, eb.len() + ev.len() as int) =~= ev);
        lemma_encoded_part(s, pos, body, eb.len() as int, ev);
        lemma_dec_value(s, kend, opts, depth, v);
        let (r, next) = dec(s, kend, opts, depth)->Ok_0;
        lemma_encode_value_first(v);
        if has_key(acc, key) {
            let j = choose|j: int| 0 <= j < acc.len() && #[trigger] acc[j].0 == key;
            assert(lex_lt(acc[j].0, entries[0].0));
            lemma_lex_irreflexive(key);
        }
        assert forall|i: int| 0 <= i < acc.len() implies lex_lt(#[trigger] acc[i].0, key) by {
            assert(lex_lt(acc[i].0, entries[0].0));
        }
        lemma_insert_pos_end(acc, key);
        let acc2 = acc.push((key, r));
        assert(insert_entry(acc, key, r) =~= acc2);
        assert(body.subrange(eb.len() + ev.len() as int, eb.len() + ev.len() + rbody.len() as int) =~= rbody);
        lemma_encoded_part(s, pos, body, eb.len() + ev.len() as int, rbody);
        assert forall|i: int| 0 <= i < rest.len() implies wf_value(#[trigger] rest[i].1) by {
            assert(rest[i] == entries[i + 1]);
        }
        assert forall|i: int, j: int| 0 <= i < acc2.len() && 0 <= j < rest.len() implies lex_lt(
            #[trigger] acc2[i].0,
            #[trigger] rest[j].0,
        ) by {
            assert(rest[j] == entries[j + 1]);
            if i < acc.len() {
                assert(acc2[i] == acc[i]);
                assert(lex_lt(acc[i].0, entries[j + 1].0));
            } else {
                assert(lex_lt(entries[0].0, entries[j + 1].0));
            }
        }
        assert(keys_sorted(rest)) by {
            assert forall|i: int, j: int| 0 <= i < j < rest.len() implies lex_lt(
                #[trigger] rest[i].0,
                #[trigger] rest[j].0,
            ) by {
                assert(rest[i] == entries[i + 1]);
                assert(rest[j] == entries[j + 1]);
            }
        }
        lemma_dec_entries(s, next, opts, depth, acc2, rest);
        let (rs, end) = dec_dict(s, next, opts, depth, acc2)->Ok_0;
        assert forall|i: int| 0 <= i < entries.len() implies (#[trigger] rs[acc.len() + i]).0 == entries[i].0
            && strip(rs[acc.len() + i].1) == entries[i].1 by {
            if i == 0 {
                assert(rs[acc.len() as int] == acc2[acc.len() as int]);
            } else {
                assert(rs[acc.len() + i] == rs[acc2.len() + (i - 1)]);
                assert(rest[i - 1] == entries[i]);
            }
        }
        assert forall|i: int| 0 <= i < acc.len() implies rs[i] == acc[i] by {
            assert(rs[i] == acc2[i]);
        }
    }
}

/// Decoding, under any options that allow its nesting, the bencode of a value whose integers
/// fit in an `i64` and whose dictionary keys are in order gives a node that stands for the
/// value and spans its whole encoding.
pub proof fn lemma_decode_ref_of_encode(v: BValue, opts: DecodeOpts)
    requires
        wf_value(v),
        encode_value(v).len() <= i64::MAX,
        depth_value(v) < opts.max_recursion,
    ensures
        decode_ref(encode_value(v), opts) matches Ok(r) && strip(r) == v && ref_buffer(r) == encode_value(v),
{
    let s = encode_value(v);
    assert(s.subrange(0, s.len() as int) =~= s);
    lemma_dec_value(s, 0, opts, 0, v);
}

/// Decoding the bencode of a value whose integers fit in an `i64` and whose dictionary keys
/// are in order gives the value back.
pub proof fn lemma_decode_of_encode(v: BValue)
    requires
        wf_value(v),
        encode_value(v).len() <= i64::MAX,
        depth_value(v) < usize::MAX,
    ensures
        decode_full(encode_value(v)) == Ok::<BValue, ParseFailure>(v),
{
    lemma_decode_ref_of_encode(v, full_opts());
}


// ---------------------------------------------------------------------------
// Decoded values
// ---------------------------------------------------------------------------

/// A decoded value has its integers in the range of an `i64` and its dictionary keys in
/// strictly increasing order.
proof fn lemma_dec_wf(s: Seq<u8>, pos: int, opts: DecodeOpts, depth: int)
    ensures
        dec(s, pos, opts, depth) matches Ok((r, _)) ==> wf_value(strip(r)),
    decreases s.len() - pos, 1nat,
{
    if depth < opts.max_recursion && 0 <= pos < s.len() {
        if s[pos] == 105u8 {
        } else if s[pos] == 108u8 {
            lemma_dec_list_wf(s, pos + 1, opts, depth + 1, Seq::empty());
        } else if s[pos] == 100u8 {
            lemma_dec_dict_wf(s, pos + 1, opts, depth + 1, Seq::empty());
        }
    }
}

/// The items of a decoded list are well formed when those read before are.
proof fn lemma_dec_list_wf(s: Seq<u8>, pos: int, opts: DecodeOpts, depth: int, acc: Seq<RefView>)
    requires
        forall|i: int| 0 <= i < acc.len() ==> wf_value(strip(#[trigger] acc[i])),
    ensures
        dec_list(s, pos, opts, depth, acc) matches Ok((rs, _)) ==> forall|i: int|
            0 <= i < rs.len() ==> wf_value(strip(#[trigger] rs[i])),
    decreases s.len() - pos, 2nat,
{
    if 0 <= pos < s.len() && s[pos] != 101u8 {
        lemma_dec_wf(s, pos, opts, depth);
        if let Ok((v, next)) = dec(s, pos, opts, depth) {
            if pos < next <= s.len() {
                let acc2 = acc.push(v);
                assert forall|i: int| 0 <= i < acc2.len() implies wf_value(strip(#[trigger] acc2[i])) by {
                    if i < acc.len() {
                        assert(acc2[i] == acc[i]);
                    }
                }
                lemma_dec_list_wf(s, next, opts, depth, acc2);
            }
        }
    }
}

/// The entries of a decoded dictionary have strictly increasing keys and well formed values
/// when those read before do.
proof fn lemma_dec_dict_wf(s: Seq<u8>, pos: int, opts: DecodeOpts, depth: int, acc: Seq<(Seq<u8>, RefView)>)
    requires
        keys_sorted(acc),
        forall|i: int| 0 <= i < acc.len() ==> wf_value(strip(#[trigger] acc[i].1)),
    ensures
        dec_dict(s, pos, opts, depth, acc) matches Ok((rs, _)) ==> keys_sorted(rs) && forall|i: int|
            0 <= i < rs.len() ==> wf_value(strip(#[trigger] rs[i].1)),
    decreases s.len() - pos, 2nat,
{
    if 0 <= pos < s.len() && s[pos] != 101u8 {
        if let Ok((key, kend)) = dec_bytes(s, pos) {
            if pos < kend <= s.len() {
                lemma_dec_wf(s, kend, opts, depth);
                if let Ok((v, next)) = dec(s, kend, opts, depth) {
                    if !has_key(acc, key) && kend < next <= s.len() {
                        let p = insert_pos(acc, key) as int;
                        lemma_insert_pos(acc, key);
                        if p < acc.len() {
                            assert(acc[p].0 != key);
                        }
                        lemma_absent_at_insert_pos(acc, key, p);
                        lemma_insert_keeps_sorted(acc, key, v, p);
                        let acc2 = insert_entry(acc, key, v);
                        assert forall|i: int| 0 <= i < acc2.len() implies wf_value(strip(#[trigger] acc2[i].1)) by {
                            if i < p {
                                assert(acc2[i] == acc[i]);
                            } else if i > p {
                                assert(acc2[i] == acc[i - 1]);
                            }
                        }
                        lemma_dec_dict_wf(s, next, opts, depth, acc2);
                    }
                }
            }
        }
    }
}

/// A value decoded from bencode, encoded again, decodes to the same value.
pub proof fn lemma_decode_encode_decode(s: Seq<u8>, v: BValue)
    requires
        decode_full(s) == Ok::<BValue, ParseFailure>(v),
        encode_value(v).len() <= i64::MAX,
        depth_value(v) < usize::MAX,
    ensures
        decode_full(encode_value(v)) == Ok::<BValue, ParseFailure>(v),
{
    lemma_dec_wf(s, 0, full_opts(), 0);
    lemma_decode_of_encode(v);
}

// ---------------------------------------------------------------------------
// Decoding reads only the value's own bytes
// ---------------------------------------------------------------------------

/// Finding a delimiter inside the window `[lo, hi)` of `s` finds it in the window alone.
proof fn lemma_find_byte_local(s: Seq<u8>, p: int, b: u8, lo: int, hi: int)
    requires
        0 <= lo <= p,
        hi <= s.len(),
        find_byte(s, p, b) matches Some(e) && e < hi,
    ensures
        find_byte(s.subrange(lo, hi), p - lo, b) == Some(find_byte(s, p, b)->0 - lo),
    decreases s.len() - p,
{
    let w = s.subrange(lo, hi);
    crate::bencode::decode::lemma_find_byte(s, p, b);
    assert(w[p - lo] == s[p]);
    if s[p] != b {
        lemma_find_byte_local(s, p + 1, b, lo, hi);
    }
}

/// An integer read inside the window `[lo, hi)` of `s` is read the same from the window.
proof fn lemma_dec_int_local(s: Seq<u8>, p: int, d: u8, lo: int, hi: int)
    requires
        0 <= lo <= p,
        hi <= s.len(),
        dec_int(s, p, d) matches Ok((_, nx)) && nx <= hi,
    ensures
        dec_int(s.subrange(lo, hi), p - lo, d) == Ok::<(int, int), ParseFailure>(
            (dec_int(s, p, d)->Ok_0.0, dec_int(s, p, d)->Ok_0.1 - lo),
        ),
{
    let w = s.subrange(lo, hi);
    crate::bencode::decode::lemma_find_byte(s, p, d);
    let e = find_byte(s, p, d)->0;
    lemma_find_byte_local(s, p, d, lo, hi);
    assert(w.subrange(p - lo, e - lo) =~= s.subrange(p, e));
}

/// A byte string read inside the window `[lo, hi)` of `s` is read the same from the window.
proof fn lemma_dec_bytes_local(s: Seq<u8>, p: int, lo: int, hi: int)
    requires
        0 <= lo <= p,
        hi <= s.len(),
        dec_bytes(s, p) matches Ok((_, nx)) && nx <= hi,
    ensures
        dec_bytes(s.subrange(lo, hi), p - lo) == Ok::<(Seq<u8>, int), ParseFailure>(
            (dec_bytes(s, p)->Ok_0.0, dec_bytes(s, p)->Ok_0.1 - lo),
        ),
{
    let w = s.subrange(lo, hi);
    crate::bencode::decode::lemma_dec_int_bounds(s, p, 58u8);
    let (n, start) = dec_int(s, p, 58u8)->Ok_0;
    lemma_dec_int_local(s, p, 58u8, lo, hi);
    assert(w.subrange(start - lo, start - lo + n) =~= s.subrange(start, start + n));
}

/// A value read inside the window `[lo, hi)` of `s` is read the same from the window.
proof fn lemma_dec_local(s: Seq<u8>, pos: int, opts: DecodeOpts, depth: int, lo: int, hi: int)
    requires
        0 <= lo <= pos,
        hi <= s.len(),
        dec(s, pos, opts, depth) matches Ok((_, end)) && end <= hi,
    ensures
        dec(s.subrange(lo, hi), pos - lo, opts, depth) == Ok::<(RefView, int), ParseFailure>(
            (dec(s, pos, opts, depth)->Ok_0.0, dec(s, pos, opts, depth)->Ok_0.1 - lo),
        ),
    decreases s.len() - pos, 1nat,
{
    let w = s.subrange(lo, hi);
    let end = dec(s, pos, opts, depth)->Ok_0.1;
    crate::bencode::decode::lemma_dec_bounds(s, pos, opts, depth);
    assert(w[pos - lo] == s[pos]);
    if s[pos] == 105u8 {
        lemma_dec_int_local(s, pos + 1, 101u8, lo, hi);
    } else if s[pos] == 108u8 {
        lemma_dec_list_local(s, pos + 1, opts, depth + 1, Seq::empty(), lo, hi);
    } else if s[pos] == 100u8 {
        lemma_dec_dict_local(s, pos + 1, opts, depth + 1, Seq::empty(), lo, hi);
    } else {
        lemma_dec_bytes_local(s, pos, lo, hi);
    }
    assert(w.subrange(pos - lo, end - lo) =~= s.subrange(pos, end));
}

/// The items of a list read inside the window `[lo, hi)` of `s` are read the same from the
/// window.
proof fn lemma_dec_list_local(s: Seq<u8>, pos: int, opts: DecodeOpts, depth: int, acc: Seq<RefView>, lo: int, hi: int)
    requires
        0 <= lo <= pos,
        hi <= s.len(),
        dec_list(s, pos, opts, depth, acc) matches Ok((_, end)) && end <= hi,
    ensures
        dec_list(s.subrange(lo, hi), pos - lo, opts, depth, acc) == Ok::<(Seq<RefView>, int), ParseFailure>(
            (dec_list(s, pos, opts, depth, acc)->Ok_0.0, dec_list(s, pos, opts, depth, acc)->Ok_0.1 - lo),
        ),
    decreases s.len() - pos, 2nat,
{
    let w = s.subrange(lo, hi);
    crate::bencode::decode::lemma_dec_list_bounds(s, pos, opts, depth, acc);
    assert(w[pos - lo] == s[pos]);
    if s[pos] != 101u8 {
        let (v, next) = dec(s, pos, opts, depth)->Ok_0;
        crate::bencode::decode::lemma_dec_list_bounds(s, next, opts, depth, acc.push(v));
        lemma_dec_local(s, pos, opts, depth, lo, hi);
        lemma_dec_list_local(s, next, opts, depth, acc.push(v), lo, hi);
    }
}

/// The entries of a dictionary read inside the window `[lo, hi)` of `s` are read the same
/// from the window.
proof fn lemma_dec_dict_local(
    s: Seq<u8>,
    pos: int,
    opts: DecodeOpts,
    depth: int,
    acc: Seq<(Seq<u8>, RefView)>,
    lo: int,
    hi: int,
)
    requires
        0 <= lo <= pos,
        hi <= s.len(),
        dec_dict(s, pos, opts, depth, acc) matches Ok((_, end)) && end <= hi,
    ensures
        dec_dict(s.subrange(lo, hi), pos - lo, opts, depth, acc) == Ok::<(Seq<(Seq<u8>, RefView)>, int), ParseFailure>(
            (dec_dict(s, pos, opts, depth, acc)->Ok_0.0, dec_dict(s, pos, opts, depth, acc)->Ok_0.1 - lo),
        ),
    decreases s.len() - pos, 2nat,
{
    let w = s.subrange(lo, hi);
    crate::bencode::decode::lemma_dec_dict_bounds(s, pos, opts, depth, acc);
    assert(w[pos - lo] == s[pos]);
    if s[pos] != 101u8 {
        let (key, kend) = dec_bytes(s, pos)->Ok_0;
        let (v, next) = dec(s, kend, opts, depth)->Ok_0;
        crate::bencode::decode::lemma_dec_dict_bounds(s, next, opts, depth, insert_entry(acc, key, v));
        lemma_dec_bytes_local(s, pos, lo, hi);
        lemma_dec_local(s, kend, opts, depth, lo, hi);
        lemma_dec_dict_local(s, next, opts, depth, insert_entry(acc, key, v), lo, hi);
    }
}

/// Decoding reads a value from its own bytes alone: when the value at `pos` of `s` is read
/// and ends at `end`, reading `s[pos..end]` on its own from its start gives the same node
/// (the same value, from the same bytes), ending at its end; nothing at or after `end` is
/// looked at.
pub proof fn lemma_decode_local(s: Seq<u8>, pos: int, opts: DecodeOpts, depth: int)
    requires
        0 <= pos,
    ensures
        dec(s, pos, opts, depth) matches Ok((r, end)) ==> pos < end <= s.len() && dec(s.subrange(pos, end), 0, opts, depth)
            == Ok::<(RefView, int), ParseFailure>((r, end - pos)),
{
    crate::bencode::decode::lemma_dec_bounds(s, pos, opts, depth);
    if let Ok((r, end)) = dec(s, pos, opts, depth) {
        lemma_dec_local(s, pos, opts, depth, pos, end);
    }
}

// ---------------------------------------------------------------------------
// Decoding accepts only the canonical form
// ---------------------------------------------------------------------------

/// The fields read as numbers for the value at `pos` of `s` — its integers, and the lengths
/// of its dictionary keys — do not start with a `+` sign. (Decoding accepts such a sign,
/// which encoding never writes.)
pub open spec fn signless(s: Seq<u8>, pos: int, opts: DecodeOpts, depth: int) -> bool
    decreases s.len() - pos, 1nat,
{
    if depth >= opts.max_recursion || pos < 0 || pos >= s.len() {
        true
    } else if s[pos] == 105u8 {
        pos + 1 < s.len() ==> s[pos + 1] != 43u8
    } else if s[pos] == 108u8 {
        signless_list(s, pos + 1, opts, depth + 1, Seq::empty())
    } else if s[pos] == 100u8 {
        signless_dict(s, pos + 1, opts, depth + 1, Seq::empty())
    } else {
        true
    }
}

/// The items of a list from `pos` on have no number field starting with `+` (see
/// `signless`).
pub open spec fn signless_list(s: Seq<u8>, pos: int, opts: DecodeOpts, depth: int, acc: Seq<RefView>) -> bool
    decreases s.len() - pos, 2nat,
{
    if pos < 0 || pos >= s.len() || s[pos] == 101u8 {
        true
    } else {
        match dec(s, pos, opts, depth) {
            Err(_) => true,
            Ok((v, next)) => signless(s, pos, opts, depth) && (pos < next <= s.len() ==> signless_list(
                s,
                next,
                opts,
                depth,
                acc.push(v),
            )),
        }
    }
}

/// The entries of a dictionary from `pos` on have no key length and no number field
/// starting with `+` (see `signless`).
pub open spec fn signless_dict(
    s: Seq<u8>,
    pos: int,
    opts: DecodeOpts,
    depth: int,
    acc: Seq<(Seq<u8>, RefView)>,
) -> bool
    decreases s.len() - pos, 2nat,
{
    if pos < 0 || pos >= s.len() || s[pos] == 101u8 {
        true
    } else {
        &&& s[pos] != 43u8
        &&& match dec_bytes(s, pos) {
            Err(_) => true,
            Ok((key, kend)) => if !(pos < kend <= s.len()) {
                true
            } else {
                match dec(s, kend, opts, depth) {
                    Err(_) => true,
                    Ok((v, next)) => signless(s, kend, opts, depth) && (kend < next <= s.len() ==> signless_dict(
                        s,
                        next,
                        opts,
                        depth,
                        insert_entry(acc, key, v),
                    )),
                }
            },
        }
    }
}

/// A digit string without a leading zero is the decimal text of its value.
proof fn lemma_digits_canonical(t: Seq<u8>)
    requires
        t.len() >= 1,
        all_digits(t),
        !(t.len() > 1 && t[0] == 48u8),
    ensures
        nat_digits(digits_value(t)) == t,
        t[0] != 48u8 ==> digits_value(t) >= 1,
    decreases t.len(),
{
    let n = digits_value(t);
    if t.len() == 1 {
        assert(t.drop_last() =~= Seq::<u8>::empty());
        assert(is_digit(t[0]));
        assert(digits_value(t.drop_last()) == 0);
        assert(t.last() == t[0]);
        assert(n == t[0] - 48);
        assert(t =~= seq![t[0]]);
        assert(nat_digits(n) =~= t);
    } else {
        let u = t.drop_last();
        assert(u[0] == t[0]);
        assert forall|i: int| 0 <= i < u.len() implies is_digit(#[trigger] u[i]) by {
            assert(u[i] == t[i]);
        }
        lemma_digits_canonical(u);
        let a = digits_value(u);
        let d = (t.last() - 48) as nat;
        assert(is_digit(t[t.len() - 1]));
        assert(d < 10);
        assert(n == a * 10 + d);
        assert(n >= 10);
        assert((a * 10 + d) / 10 == a && (a * 10 + d) % 10 == d) by (nonlinear_arith)
            requires
                d < 10,
        ;
        assert(nat_digits(n) == nat_digits(n / 10).push((n % 10 + 48) as u8));
        assert(t =~= u.push(t.last()));
    }
}

/// An integer field read by decoding, not starting with `+`, is the decimal text of the
/// integer read.
proof fn lemma_dec_int_canonical(s: Seq<u8>, p: int, delim: u8)
    requires
        dec_int(s, p, delim) matches Ok((_, nx)),
        p < s.len() ==> s[p] != 43u8,
        !is_digit(delim),
        delim != 45u8,
        delim != 43u8,
    ensures
        dec_int(s, p, delim) matches Ok((n, nx)) && p < nx && s.subrange(p, nx - 1) == int_text(n) && s[nx - 1] == delim,
{
    crate::bencode::decode::lemma_find_byte(s, p, delim);
    let e = find_byte(s, p, delim)->0;
    let t = s.subrange(p, e);
    let n = dec_int(s, p, delim)->Ok_0.0;
    if t.len() > 0 && t[0] == 45u8 {
        let d = t.drop_first();
        assert(d.len() > 0 && all_digits(d));
        assert(d[0] == t[1]);
        lemma_digits_canonical(d);
        assert(n == -(digits_value(d) as int));
        assert(int_text(n) == seq![45u8] + nat_digits(digits_value(d)));
        assert(t =~= seq![45u8] + d);
    } else {
        assert(t[0] == s[p]);
        lemma_digits_canonical(t);
    }
}

/// The strip of each node of `items`.
pub open spec fn strips(items: Seq<RefView>) -> Seq<BValue> {
    Seq::new(items.len(), |i: int| strip(items[i]))
}

/// The strip of the value of each entry.
pub open spec fn strip_entries(entries: Seq<(Seq<u8>, RefView)>) -> Seq<(Seq<u8>, BValue)> {
    Seq::new(entries.len(), |i: int| (entries[i].0, strip(entries[i].1)))
}

/// A value decoded with no number field starting with `+`, keys checked for order, is
/// encoded as exactly the bytes it was read from.
proof fn lemma_dec_canonical(s: Seq<u8>, pos: int, opts: DecodeOpts, depth: int)
    requires
        dec(s, pos, opts, depth) matches Ok((_, _)),
        signless(s, pos, opts, depth),
        opts.check_key_sort,
    ensures
        dec(s, pos, opts, depth) matches Ok((r, end)) && encode_value(strip(r)) == s.subrange(pos, end),
    decreases s.len() - pos, 1nat,
{
    let (r, end) = dec(s, pos, opts, depth)->Ok_0;
    crate::bencode::decode::lemma_dec_bounds(s, pos, opts, depth);
    if s[pos] == 105u8 {
        lemma_dec_int_canonical(s, pos + 1, 101u8);
        assert(s.subrange(pos, end) =~= seq![105u8] + s.subrange(pos + 1, end - 1) + seq![101u8]);
    } else if s[pos] == 108u8 {
        lemma_dec_list_canonical(s, pos + 1, opts, depth + 1, Seq::empty());
        let items = dec_list(s, pos + 1, opts, depth + 1, Seq::empty())->Ok_0.0;
        assert(r == RefView::List(items, s.subrange(pos, end)));
        assert(strip(r)->List_0 =~= strips(items));
        assert(strip(r) == BValue::List(strips(items)));
        assert(items.skip(0) =~= items);
        assert(s.subrange(pos, end) =~= seq![108u8] + s.subrange(pos + 1, end));
    } else if s[pos] == 100u8 {
        lemma_dec_dict_canonical(s, pos + 1, opts, depth + 1, Seq::empty());
        let entries = dec_dict(s, pos + 1, opts, depth + 1, Seq::empty())->Ok_0.0;
        assert(r == RefView::Dict(entries, s.subrange(pos, end)));
        assert(strip(r)->Dict_0 =~= strip_entries(entries));
        assert(strip(r) == BValue::Dict(strip_entries(entries)));
        assert(entries.skip(0) =~= entries);
        assert(s.subrange(pos, end) =~= seq![100u8] + s.subrange(pos + 1, end));
    } else {
        lemma_dec_bytes_canonical(s, pos);
    }
}

/// A byte string read with a length not starting with `+` is encoded as exactly the bytes it
/// was read from.
proof fn lemma_dec_bytes_canonical(s: Seq<u8>, pos: int)
    requires
        dec_bytes(s, pos) matches Ok((_, _)),
        0 <= pos < s.len() ==> s[pos] != 43u8,
    ensures
        dec_bytes(s, pos) matches Ok((b, next)) && encode_bytes(b) == s.subrange(pos, next),
{
    lemma_dec_int_canonical(s, pos, 58u8);
    let (n, start) = dec_int(s, pos, 58u8)->Ok_0;
    let b = s.subrange(start, start + n);
    assert(n >= 0);
    assert(b.len() == n);
    assert(int_text(n) == nat_digits(n as nat));
    assert(s.subrange(pos, start + n) =~= s.subrange(pos, start - 1) + seq![58u8] + b);
}

/// The items of a list decoded from `pos` after `acc`, with no number field starting with
/// `+`, keys checked for order: they extend `acc`, and the new ones, encoded, then the end
/// marker, are exactly the bytes read.
proof fn lemma_dec_list_canonical(s: Seq<u8>, pos: int, opts: DecodeOpts, depth: int, acc: Seq<RefView>)
    requires
        dec_list(s, pos, opts, depth, acc) matches Ok((_, _)),
        signless_list(s, pos, opts, depth, acc),
        opts.check_key_sort,
    ensures
        dec_list(s, pos, opts, depth, acc) matches Ok((items, end)) && acc.len() <= items.len() && items.take(
            acc.len() as int,
        ) == acc && encode_items(strips(items.skip(acc.len() as int))) + seq![101u8] == s.subrange(pos, end),
    decreases s.len() - pos, 2nat,
{
    let (items, end) = dec_list(s, pos, opts, depth, acc)->Ok_0;
    if s[pos] == 101u8 {
        assert(items == acc);
        assert(items.take(acc.len() as int) =~= acc);
        assert(strips(items.skip(acc.len() as int)) =~= Seq::<BValue>::empty());
        assert(s.subrange(pos, end) =~= seq![101u8]);
    } else {
        let (v, next) = dec(s, pos, opts, depth)->Ok_0;
        lemma_dec_canonical(s, pos, opts, depth);
        crate::bencode::decode::lemma_dec_bounds(s, pos, opts, depth);
        lemma_dec_list_canonical(s, next, opts, depth, acc.push(v));
        let k = acc.len() as int;
        assert(items.take(k) =~= items.take(k + 1).take(k));
        assert(items.take(k + 1) == acc.push(v));
        assert(items.take(k + 1)[k] == items[k]);
        assert(items[k] == v);
        let rest = strips(items.skip(k));
        assert(rest.len() > 0);
        assert(rest[0] == strip(v));
        assert(rest.drop_first() =~= strips(items.skip(k + 1)));
        crate::bencode::decode::lemma_dec_list_bounds(s, next, opts, depth, acc.push(v));
        assert(s.subrange(pos, end) =~= s.subrange(pos, next) + s.subrange(next, end));
    }
}

/// The entries of a dictionary decoded from `pos` after the sorted `acc`, with no number
/// field or key length starting with `+`, keys checked for order: they extend `acc`, and
/// the new ones, encoded, then the end marker, are exactly the bytes read.
proof fn lemma_dec_dict_canonical(
    s: Seq<u8>,
    pos: int,
    opts: DecodeOpts,
    depth: int,
    acc: Seq<(Seq<u8>, RefView)>,
)
    requires
        dec_dict(s, pos, opts, depth, acc) matches Ok((_, _)),
        signless_dict(s, pos, opts, depth, acc),
        opts.check_key_sort,
        keys_sorted(acc),
    ensures
        dec_dict(s, pos, opts, depth, acc) matches Ok((entries, end)) && acc.len() <= entries.len() && entries.take(
            acc.len() as int,
        ) == acc && encode_entries(strip_entries(entries.skip(acc.len() as int))) + seq![101u8] == s.subrange(pos, end),
    decreases s.len() - pos, 2nat,
{
    let (entries, end) = dec_dict(s, pos, opts, depth, acc)->Ok_0;
    if s[pos] == 101u8 {
        assert(entries == acc);
        assert(entries.take(acc.len() as int) =~= acc);
        assert(strip_entries(entries.skip(acc.len() as int)) =~= Seq::<(Seq<u8>, BValue)>::empty());
        assert(s.subrange(pos, end) =~= seq![101u8]);
    } else {
        let (key, kend) = dec_bytes(s, pos)->Ok_0;
        let (v, next) = dec(s, kend, opts, depth)->Ok_0;
        lemma_dec_bytes_canonical(s, pos);
        lemma_dec_canonical(s, kend, opts, depth);
        crate::bencode::decode::lemma_dec_bounds(s, kend, opts, depth);
        // The key comes after every key before it.
        assert forall|i: int| 0 <= i < acc.len() implies lex_lt(#[trigger] acc[i].0, key) by {
            let last = acc.last().0;
            crate::bencode::order::lemma_lex_total(last, key);
            assert(acc[acc.len() - 1].0 == last);
            if i < acc.len() - 1 {
                assert(lex_lt(acc[i].0, last));
                crate::bencode::order::lemma_lex_transitive(acc[i].0, last, key);
            }
        }
        lemma_insert_pos_end(acc, key);
        let acc2 = insert_entry(acc, key, v);
        assert(acc2 =~= acc.push((key, v)));
        assert(keys_sorted(acc2)) by {
            assert forall|i: int, j: int| 0 <= i < j < acc2.len() implies lex_lt(#[trigger] acc2[i].0, #[trigger] acc2[j].0) by {
                if j < acc.len() {
                    assert(lex_lt(acc[i].0, acc[j].0));
                }
            }
        }
        lemma_dec_dict_canonical(s, next, opts, depth, acc2);
        let k = acc.len() as int;
        assert(entries.take(k) =~= entries.take(k + 1).take(k));
        assert(entries.take(k + 1) == acc2);
        assert(entries.take(k + 1)[k] == entries[k]);
        assert(entries[k] == (key, v));
        let rest = strip_entries(entries.skip(k));
        assert(rest.len() > 0);
        assert(rest[0] == (key, strip(v)));
        assert(rest.drop_first() =~= strip_entries(entries.skip(k + 1)));
        crate::bencode::decode::lemma_dec_dict_bounds(s, next, opts, depth, acc2);
        assert(s.subrange(pos, end) =~= s.subrange(pos, kend) + s.subrange(kend, next) + s.subrange(next, end));
    }
}

/// Decoding accepts only the canonical form: when a whole input decodes to a value, and no
/// integer and no key length in it starts with a `+` sign, encoding the value gives the
/// input back byte for byte.
pub proof fn lemma_decode_canonical(s: Seq<u8>)
    requires
        decode_full(s) matches Ok(_),
        signless(s, 0, full_opts(), 0),
    ensures
        decode_full(s) matches Ok(v) && encode_value(v) == s,
{
    lemma_dec_canonical(s, 0, full_opts(), 0);
    assert(s.subrange(0, s.len() as int) =~= s);
}

} // verus!
