use vstd::prelude::*;

use crate::bencode::dict::BDict;
use crate::bencode::error::BencodeParseError;
use crate::bencode::options::BDecodeOpt;
use crate::bencode::order::lex_less;
use crate::bencode::reference::{lemma_ref_view, ref_view, BencodeRef, InnerBencodeRef};
use crate::bencode::spec::{
    all_digits, dec, dec_bytes, dec_dict, dec_int, dec_list, digits_value, find_byte, has_key,
    insert_entry, insert_pos, is_digit, parse_i64, DecodeOpts, ParseFailure, RefView,
};
use crate::bencode::{BEN_END, BYTE_LEN_END, BYTE_LEN_HIGH, BYTE_LEN_LOW, DICT_START, INT_START, LIST_START};

verus! {

broadcast use lemma_ref_view;

// ---------------------------------------------------------------------------
// Facts about the decoding model
// ---------------------------------------------------------------------------

/// A delimiter found by `find_byte` lies at or after the start, inside the input.
pub proof fn lemma_find_byte(s: Seq<u8>, pos: int, b: u8)
    ensures
        find_byte(s, pos, b) matches Some(e) ==> pos <= e < s.len() && s[e] == b && 0 <= pos,
    decreases s.len() - pos,
{
    if 0 <= pos < s.len() && s[pos] != b {
        lemma_find_byte(s, pos + 1, b);
    }
}

/// A decoded integer ends after its start, within the input.
pub proof fn lemma_dec_int_bounds(s: Seq<u8>, pos: int, delim: u8)
    ensures
        dec_int(s, pos, delim) matches Ok((_, next)) ==> pos < next <= s.len() && 0 <= pos,
{
    lemma_find_byte(s, pos, delim);
}

/// A decoded byte string ends after its start, within the input.
pub proof fn lemma_dec_bytes_bounds(s: Seq<u8>, pos: int)
    ensures
        dec_bytes(s, pos) matches Ok((_, next)) ==> pos < next <= s.len() && 0 <= pos,
{
    lemma_dec_int_bounds(s, pos, 58u8);
}

/// A decoded value, list or dictionary ends after its start, within the input.
pub proof fn lemma_dec_bounds(s: Seq<u8>, pos: int, opts: DecodeOpts, depth: int)
    ensures
        dec(s, pos, opts, depth) matches Ok((_, next)) ==> pos < next <= s.len(),
    decreases s.len() - pos, 1nat,
{
    if depth < opts.max_recursion && 0 <= pos < s.len() {
        if s[pos] == 105u8 {
            lemma_dec_int_bounds(s, pos + 1, 101u8);
        } else if s[pos] == 108u8 {
            lemma_dec_list_bounds(s, pos + 1, opts, depth + 1, Seq::empty());
        } else if s[pos] == 100u8 {
            lemma_dec_dict_bounds(s, pos + 1, opts, depth + 1, Seq::empty());
        } else {
            lemma_dec_bytes_bounds(s, pos);
        }
    }
}

pub proof fn lemma_dec_list_bounds(s: Seq<u8>, pos: int, opts: DecodeOpts, depth: int, acc: Seq<RefView>)
    ensures
        dec_list(s, pos, opts, depth, acc) matches Ok((_, next)) ==> pos < next <= s.len(),
    decreases s.len() - pos, 2nat,
{
    if 0 <= pos < s.len() && s[pos] != 101u8 {
        if let Ok((v, next)) = dec(s, pos, opts, depth) {
            if pos < next <= s.len() {
                lemma_dec_list_bounds(s, next, opts, depth, acc.push(v));
            }
        }
    }
}

pub proof fn lemma_dec_dict_bounds(
    s: Seq<u8>,
    pos: int,
    opts: DecodeOpts,
    depth: int,
    acc: Seq<(Seq<u8>, RefView)>,
)
    ensures
        dec_dict(s, pos, opts, depth, acc) matches Ok((_, next)) ==> pos < next <= s.len(),
    decreases s.len() - pos, 2nat,
{
    if 0 <= pos < s.len() && s[pos] != 101u8 {
        if let Ok((key, kend)) = dec_bytes(s, pos) {
            if pos < kend <= s.len() {
                if let Ok((v, next)) = dec(s, kend, opts, depth) {
                    if kend < next <= s.len() && !has_key(acc, key) {
                        lemma_dec_dict_bounds(s, next, opts, depth, insert_entry(acc, key, v));
                    }
                }
            }
        }
    }
}

/// A prefix of a digit string never has a greater value.
pub proof fn lemma_digits_prefix(t: Seq<u8>, k: int)
    requires
        0 <= k <= t.len(),
    ensures
        digits_value(t.subrange(0, k)) <= digits_value(t),
    decreases t.len(),
{
    if k < t.len() {
        assert(t.drop_last().subrange(0, k) =~= t.subrange(0, k));
        lemma_digits_prefix(t.drop_last(), k);
    } else {
        assert(t.subrange(0, k) =~= t);
    }
}

// ---------------------------------------------------------------------------
// Views of decoding results
// ---------------------------------------------------------------------------

/// Models of a sequence of decoded values.
pub(crate) open spec fn items_view(items: Seq<BencodeRef>) -> Seq<RefView> {
    Seq::new(items.len(), |i: int| ref_view(items[i]))
}

/// Models of the entries of a decoded dictionary.
pub(crate) open spec fn entries_view(entries: Seq<(Seq<u8>, BencodeRef)>) -> Seq<(Seq<u8>, RefView)> {
    Seq::new(entries.len(), |i: int| (entries[i].0, ref_view(entries[i].1)))
}

pub open spec fn int_result(r: Result<(i64, usize), BencodeParseError>) -> Result<(int, int), ParseFailure> {
    match r {
        Ok((n, next)) => Ok((n as int, next as int)),
        Err(e) => Err(e@),
    }
}

pub open spec fn bytes_result(r: Result<(&[u8], usize), BencodeParseError>) -> Result<(Seq<u8>, int), ParseFailure> {
    match r {
        Ok((b, next)) => Ok((b@, next as int)),
        Err(e) => Err(e@),
    }
}

pub open spec fn ref_result(r: Result<(BencodeRef, usize), BencodeParseError>) -> Result<(RefView, int), ParseFailure> {
    match r {
        Ok((v, next)) => Ok((v@, next as int)),
        Err(e) => Err(e@),
    }
}

// ---------------------------------------------------------------------------
// Decoding
// ---------------------------------------------------------------------------

/// The byte at `pos`.
pub fn peek_byte(bytes: &[u8], pos: usize) -> (r: Result<u8, BencodeParseError>)
    ensures
        pos < bytes@.len() ==> r == Ok::<u8, BencodeParseError>(bytes@[pos as int]),
        pos >= bytes@.len() ==> r == Err::<u8, BencodeParseError>(BencodeParseError::BytesEmpty { pos }),
{
    if pos < bytes.len() {
        Ok(bytes[pos])
    } else {
        Err(BencodeParseError::BytesEmpty { pos })
    }
}

/// Reads the decimal digits `bytes[start..end]`, giving up once the value exceeds 2^63.
fn parse_digits(bytes: &[u8], start: usize, end: usize) -> (r: Option<u64>)
    requires
        start <= end <= bytes@.len(),
    ensures
        r matches Some(m) ==> all_digits(bytes@.subrange(start as int, end as int)) && m
            == digits_value(bytes@.subrange(start as int, end as int)) && m <= 0x8000_0000_0000_0000,
        r is None ==> !all_digits(bytes@.subrange(start as int, end as int)) || digits_value(
            bytes@.subrange(start as int, end as int),
        ) > 0x8000_0000_0000_0000,
{
    let ghost t = bytes@.subrange(start as int, end as int);
    let mut m: u64 = 0;
    let mut i = start;
    assert(bytes@.subrange(start as int, start as int) =~= Seq::<u8>::empty());
    while i < end
        invariant
            start <= i <= end <= bytes@.len(),
            t == bytes@.subrange(start as int, end as int),
            all_digits(bytes@.subrange(start as int, i as int)),
            m == digits_value(bytes@.subrange(start as int, i as int)),
            m <= 0x8000_0000_0000_0000,
        decreases end - i,
    {
        let b = bytes[i];
        let ghost prefix = bytes@.subrange(start as int, i + 1);
        assert(prefix.drop_last() =~= bytes@.subrange(start as int, i as int));
        assert(t.subrange(0, i + 1 - start) =~= prefix);
        if b < BYTE_LEN_LOW || b > BYTE_LEN_HIGH {
            assert(!is_digit(t[i - start]));
            return None;
        }
        let next: u128 = (m as u128) * 10 + ((b - BYTE_LEN_LOW) as u128);
        if next > 0x8000_0000_0000_0000 {
            proof {
                lemma_digits_prefix(t, i + 1 - start);
            }
            return None;
        }
        m = next as u64;
        i = i + 1;
    }
    assert(bytes@.subrange(start as int, i as int) =~= t);
    Some(m)
}

/// Reads `bytes[start..end]` as a base-ten `i64`: an optional sign, then digits.
fn parse_int_text(bytes: &[u8], start: usize, end: usize) -> (r: Option<i64>)
    requires
        start <= end <= bytes@.len(),
    ensures
        r matches Some(n) ==> parse_i64(bytes@.subrange(start as int, end as int)) == Some(n as int),
        r is None ==> parse_i64(bytes@.subrange(start as int, end as int)) is None,
{
    let ghost t = bytes@.subrange(start as int, end as int);
    if start < end && (bytes[start] == 43u8 || bytes[start] == 45u8) {
        assert(t.drop_first() =~= bytes@.subrange(start + 1, end as int));
        if start + 1 == end {
            return None;
        }
        match parse_digits(bytes, start + 1, end) {
            None => None,
            Some(m) => if bytes[start] == 45u8 {
                let v: i128 = 0i128 - (m as i128);
                Some(v as i64)
            } else if m <= 0x7fff_ffff_ffff_ffff {
                Some(m as i64)
            } else {
                None
            },
        }
    } else if start < end {
        match parse_digits(bytes, start, end) {
            None => None,
            Some(m) => if m <= 0x7fff_ffff_ffff_ffff {
                Some(m as i64)
            } else {
                None
            },
        }
    } else {
        None
    }
}

/// Decodes the integer whose text starts at `pos` and ends before the next `delim`,
/// giving the integer and the position after the delimiter.
pub fn decode_int(bytes: &[u8], pos: usize, delim: u8) -> (r: Result<(i64, usize), BencodeParseError>)
    requires
        pos <= bytes@.len(),
    ensures
        int_result(r) == dec_int(bytes@, pos as int, delim),
{
    let mut e = pos;
    while e < bytes.len() && bytes[e] != delim
        invariant
            pos <= e <= bytes@.len(),
            find_byte(bytes@, pos as int, delim) == find_byte(bytes@, e as int, delim),
        decreases bytes@.len() - e,
    {
        e = e + 1;
    }
    if e == bytes.len() {
        return Err(BencodeParseError::InvalidIntNoDelimiter { pos });
    }
    let ghost t = bytes@.subrange(pos as int, e as int);
    if e - pos > 1 && bytes[pos] == 45u8 && bytes[pos + 1] == 48u8 {
        return Err(BencodeParseError::InvalidIntNegativeZero { pos });
    }
    if e - pos > 1 && bytes[pos] == 48u8 {
        return Err(BencodeParseError::InvalidIntZeroPadding { pos });
    }
    match parse_int_text(bytes, pos, e) {
        Some(n) => Ok((n, e + 1)),
        None => Err(BencodeParseError::InvalidIntParseError { pos }),
    }
}

/// Decodes the byte string whose length starts at `pos`, giving the bytes and the position
/// after them.
pub fn decode_bytes<'a>(bytes: &'a [u8], pos: usize) -> (r: Result<(&'a [u8], usize), BencodeParseError>)
    requires
        pos <= bytes@.len(),
    ensures
        bytes_result(r) == dec_bytes(bytes@, pos as int),
{
    proof {
        lemma_dec_int_bounds(bytes@, pos as int, 58u8);
    }
    let (n, start) = match decode_int(bytes, pos, BYTE_LEN_END) {
        Ok(x) => x,
        Err(e) => return Err(e),
    };
    if n < 0 {
        return Err(BencodeParseError::InvalidLengthNegative { pos });
    }
    let rem = bytes.len() - start;
    if (n as u64) > (rem as u64) {
        return Err(BencodeParseError::InvalidLengthOverflow { pos });
    }
    let end = start + (n as usize);
    Ok((vstd::slice::slice_subrange(bytes, start, end), end))
}

/// Decodes the value starting at `pos`, nested `depth` levels deep.
pub fn decode<'a>(bytes: &'a [u8], pos: usize, opts: BDecodeOpt, depth: usize) -> (r: Result<
    (BencodeRef<'a>, usize),
    BencodeParseError,
>)
    ensures
        ref_result(r) == dec(bytes@, pos as int, opts@, depth as int),
    decreases bytes@.len() - pos, 1nat,
{
    let len = bytes.len();
    if depth >= opts.max_recursion() {
        return Err(BencodeParseError::InvalidRecursionExceeded { pos, max: depth });
    }
    let curr = match peek_byte(bytes, pos) {
        Ok(b) => b,
        Err(e) => return Err(e),
    };
    if curr == INT_START {
        proof {
            lemma_dec_int_bounds(bytes@, pos + 1, 101u8);
        }
        match decode_int(bytes, pos + 1, BEN_END) {
            Ok((n, next)) => {
                let buf = vstd::slice::slice_subrange(bytes, pos, next);
                Ok((BencodeRef { inner: InnerBencodeRef::Int(n, buf) }, next))
            },
            Err(e) => Err(e),
        }
    } else if curr == LIST_START {
        proof {
            lemma_dec_list_bounds(bytes@, pos + 1, opts@, depth + 1, Seq::empty());
        }
        match decode_list(bytes, pos + 1, opts, depth + 1) {
            Ok((items, next)) => {
                let buf = vstd::slice::slice_subrange(bytes, pos, next);
                let v = BencodeRef { inner: InnerBencodeRef::List(items, buf) };
                assert(v.inner == InnerBencodeRef::List(items, buf));
                assert(ref_view(v) is List);
                assert(ref_view(v)->List_1 == buf@);
                assert(ref_view(v)->List_0.len() == items@.len());
                assert(ref_view(v)->List_0 =~= items_view(items@));
                assert(ref_view(v) =~= RefView::List(items_view(items@), buf@));
                Ok((v, next))
            },
            Err(e) => Err(e),
        }
    } else if curr == DICT_START {
        proof {
            lemma_dec_dict_bounds(bytes@, pos + 1, opts@, depth + 1, Seq::empty());
        }
        match decode_dict(bytes, pos + 1, opts, depth + 1) {
            Ok((d, next)) => {
                let buf = vstd::slice::slice_subrange(bytes, pos, next);
                proof {
                    d.lemma_kv();
                }
                let v = BencodeRef { inner: InnerBencodeRef::Dict(d, buf) };
                assert(v.inner == InnerBencodeRef::Dict(d, buf));
                assert(ref_view(v) is Dict);
                assert(ref_view(v)->Dict_0 =~= entries_view(d.kv()));
                assert(ref_view(v) =~= RefView::Dict(entries_view(d.kv()), buf@));
                Ok((v, next))
            },
            Err(e) => Err(e),
        }
    } else if BYTE_LEN_LOW <= curr && curr <= BYTE_LEN_HIGH {
        proof {
            lemma_dec_bytes_bounds(bytes@, pos as int);
        }
        match decode_bytes(bytes, pos) {
            Ok((b, next)) => {
                let buf = vstd::slice::slice_subrange(bytes, pos, next);
                Ok((BencodeRef { inner: InnerBencodeRef::Bytes(b, buf) }, next))
            },
            Err(e) => Err(e),
        }
    } else {
        Err(BencodeParseError::InvalidByte { pos })
    }
}

/// Decodes the items of a list from `pos` through its end marker.
fn decode_list<'a>(bytes: &'a [u8], pos: usize, opts: BDecodeOpt, depth: usize) -> (r: Result<
    (Vec<BencodeRef<'a>>, usize),
    BencodeParseError,
>)
    ensures
        match r {
            Ok((items, next)) => dec_list(bytes@, pos as int, opts@, depth as int, Seq::empty()) == Ok::<
                (Seq<RefView>, int),
                ParseFailure,
            >((items_view(items@), next as int)),
            Err(e) => dec_list(bytes@, pos as int, opts@, depth as int, Seq::empty()) == Err::<
                (Seq<RefView>, int),
                ParseFailure,
            >(e@),
        },
    decreases bytes@.len() - pos, 2nat,
{
    let len = bytes.len();
    let mut items: Vec<BencodeRef<'a>> = Vec::new();
    let mut curr = pos;
    assert(items_view(items@) =~= Seq::<RefView>::empty());
    loop
        invariant
            pos <= curr,
            len == bytes@.len(),
            dec_list(bytes@, pos as int, opts@, depth as int, Seq::empty()) == dec_list(
                bytes@,
                curr as int,
                opts@,
                depth as int,
                items_view(items@),
            ),
        decreases bytes@.len() - curr,
    {
        let b = match peek_byte(bytes, curr) {
            Ok(b) => b,
            Err(e) => return Err(e),
        };
        if b == BEN_END {
            return Ok((items, curr + 1));
        }
        proof {
            lemma_dec_bounds(bytes@, curr as int, opts@, depth as int);
        }
        match decode(bytes, curr, opts, depth) {
            Ok((v, next)) => {
                let ghost before = items_view(items@);
                items.push(v);
                assert(items_view(items@) =~= before.push(ref_view(v)));
                curr = next;
            },
            Err(e) => return Err(e),
        }
    }
}

/// An insertion position lies within the entries.
pub proof fn lemma_insert_pos_bound<V>(entries: Seq<(Seq<u8>, V)>, key: Seq<u8>)
    ensures
        insert_pos(entries, key) <= entries.len(),
    decreases entries.len(),
{
    if entries.len() > 0 {
        lemma_insert_pos_bound(entries.drop_first(), key);
    }
}

/// Mapping the values of entries to their models keeps insertion positions.
proof fn lemma_insert_pos_view(entries: Seq<(Seq<u8>, BencodeRef)>, key: Seq<u8>)
    ensures
        insert_pos(entries_view(entries), key) == insert_pos(entries, key),
    decreases entries.len(),
{
    if entries.len() > 0 {
        assert(entries_view(entries).drop_first() =~= entries_view(entries.drop_first()));
        lemma_insert_pos_view(entries.drop_first(), key);
    }
}

/// Decodes the entries of a dictionary from `pos` through its end marker.
fn decode_dict<'a>(bytes: &'a [u8], pos: usize, opts: BDecodeOpt, depth: usize) -> (r: Result<
    (BDict<BencodeRef<'a>>, usize),
    BencodeParseError,
>)
    ensures
        match r {
            Ok((d, next)) => dec_dict(bytes@, pos as int, opts@, depth as int, Seq::empty()) == Ok::<
                (Seq<(Seq<u8>, RefView)>, int),
                ParseFailure,
            >((entries_view(d.kv()), next as int)),
            Err(e) => dec_dict(bytes@, pos as int, opts@, depth as int, Seq::empty()) == Err::<
                (Seq<(Seq<u8>, RefView)>, int),
                ParseFailure,
            >(e@),
        },
    decreases bytes@.len() - pos, 2nat,
{
    let len = bytes.len();
    let mut dict: BDict<BencodeRef<'a>> = BDict::new();
    let mut curr = pos;
    assert(entries_view(dict.kv()) =~= Seq::<(Seq<u8>, RefView)>::empty());
    loop
        invariant
            pos <= curr,
            len == bytes@.len(),
            dec_dict(bytes@, pos as int, opts@, depth as int, Seq::empty()) == dec_dict(
                bytes@,
                curr as int,
                opts@,
                depth as int,
                entries_view(dict.kv()),
            ),
        decreases bytes@.len() - curr,
    {
        let b = match peek_byte(bytes, curr) {
            Ok(b) => b,
            Err(e) => return Err(e),
        };
        if b == BEN_END {
            return Ok((dict, curr + 1));
        }
        proof {
            lemma_dec_bytes_bounds(bytes@, curr as int);
        }
        let (key, kend) = match decode_bytes(bytes, curr) {
            Ok(x) => x,
            Err(e) => return Err(e),
        };
        let ghost acc = entries_view(dict.kv());
        let n = dict.len();
        if opts.check_key_sort() && n > 0 {
            let last = dict.last_key();
            let last = match last {
                Some(k) => k,
                None => return Err(BencodeParseError::BytesEmpty { pos: curr }),
            };
            if lex_less(key, last) {
                return Err(BencodeParseError::InvalidKeyOrdering { pos: curr, key: vstd::slice::slice_to_vec(key) });
            }
        }
        proof {
            lemma_dec_bounds(bytes@, kend as int, opts@, depth as int);
        }
        let (v, next) = match decode(bytes, kend, opts, depth) {
            Ok(x) => x,
            Err(e) => return Err(e),
        };
        let ghost old_kv = dict.kv();
        match dict.insert(vstd::slice::slice_to_vec(key), v) {
            Some(_) => {
                assert(has_key(acc, key@)) by {
                    let i = choose|i: int| 0 <= i < old_kv.len() && #[trigger] old_kv[i].0 == key@;
                    assert(acc[i].0 == key@);
                }
                return Err(BencodeParseError::InvalidKeyDuplicates { pos: kend, key: vstd::slice::slice_to_vec(key) });
            },
            None => {
                assert(!has_key(acc, key@)) by {
                    if has_key(acc, key@) {
                        let i = choose|i: int| 0 <= i < acc.len() && #[trigger] acc[i].0 == key@;
                        assert(old_kv[i].0 == key@);
                    }
                }
                proof {
                    lemma_insert_pos_view(old_kv, key@);
                    assert(!has_key(old_kv, key@));
                    assert(dict.kv() == insert_entry(old_kv, key@, v));
                    assert(acc == entries_view(old_kv));
                }
                proof {
                    lemma_insert_pos_bound(old_kv, key@);
                    let p = insert_pos(old_kv, key@) as int;
                    let x = old_kv.insert(p, (key@, v));
                    let y = acc.insert(p, (key@, ref_view(v)));
                    assert(insert_pos(acc, key@) == p);
                    assert(y == insert_entry(acc, key@, ref_view(v)));
                    assert forall|i: int| 0 <= i < x.len() implies #[trigger] entries_view(x)[i] == y[i] by {
                        if i < p {
                            assert(x[i] == old_kv[i]);
                        } else if i > p {
                            assert(x[i] == old_kv[i - 1]);
                        }
                    }
                    assert(entries_view(x) =~= y);
                }
            },
        }
        curr = next;
    }
}

} // verus!
