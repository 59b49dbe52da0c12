use vstd::prelude::*;

verus! {

/// Mathematical model of a bencode value.
#[verifier::ext_equal]
pub enum BValue {
    Int(int),
    Bytes(Seq<u8>),
    List(Seq<BValue>),
    Dict(Seq<(Seq<u8>, BValue)>),
}

/// Model of a decoded value together with the exact bytes each node was read from.
#[verifier::ext_equal]
pub enum RefView {
    Int(int, Seq<u8>),
    Bytes(Seq<u8>, Seq<u8>),
    List(Seq<RefView>, Seq<u8>),
    Dict(Seq<(Seq<u8>, RefView)>, Seq<u8>),
}

/// Model of the ways decoding can fail, with the position the failure is reported at.
pub enum ParseFailure {
    BytesEmpty(int),
    InvalidByte(int),
    InvalidIntNoDelimiter(int),
    InvalidIntNegativeZero(int),
    InvalidIntZeroPadding(int),
    InvalidIntParseError(int),
    InvalidKeyOrdering(int, Seq<u8>),
    InvalidKeyDuplicates(int, Seq<u8>),
    InvalidLengthNegative(int),
    InvalidLengthOverflow(int),
    InvalidRecursionExceeded(int, int),
}

/// Model of the decoding options.
pub struct DecodeOpts {
    pub max_recursion: int,
    pub check_key_sort: bool,
    pub enforce_full_decode: bool,
}

// ---------------------------------------------------------------------------
// Byte-string order
// ---------------------------------------------------------------------------

/// Strict lexicographic order on byte strings (a proper prefix is smaller).
pub open spec fn lex_lt(a: Seq<u8>, b: Seq<u8>) -> bool
    decreases a.len(),
{
    if a.len() == 0 {
        b.len() > 0
    } else if b.len() == 0 {
        false
    } else if a[0] != b[0] {
        a[0] < b[0]
    } else {
        lex_lt(a.drop_first(), b.drop_first())
    }
}

/// The keys of `entries` are strictly increasing.
pub open spec fn keys_sorted<V>(entries: Seq<(Seq<u8>, V)>) -> bool {
    forall|i: int, j: int| 0 <= i < j < entries.len() ==> lex_lt(#[trigger] entries[i].0, #[trigger] entries[j].0)
}

/// Some entry of `entries` has the key `key`.
pub open spec fn has_key<V>(entries: Seq<(Seq<u8>, V)>, key: Seq<u8>) -> bool {
    exists|i: int| 0 <= i < entries.len() && #[trigger] entries[i].0 == key
}

/// Number of leading entries whose key is smaller than `key`.
pub open spec fn insert_pos<V>(entries: Seq<(Seq<u8>, V)>, key: Seq<u8>) -> nat
    decreases entries.len(),
{
    if entries.len() == 0 {
        0
    } else if lex_lt(entries[0].0, key) {
        1 + insert_pos(entries.drop_first(), key)
    } else {
        0
    }
}

/// `entries` with `(key, value)` put in its place in key order.
pub open spec fn insert_entry<V>(entries: Seq<(Seq<u8>, V)>, key: Seq<u8>, value: V) -> Seq<(Seq<u8>, V)> {
    entries.insert(insert_pos(entries, key) as int, (key, value))
}

// ---------------------------------------------------------------------------
// Encoding
// ---------------------------------------------------------------------------

/// ASCII decimal digits of `n`, without leading zeros.
pub open spec fn nat_digits(n: nat) -> Seq<u8>
    decreases n,
{
    if n < 10 {
        seq![(n + 48) as u8]
    } else {
        nat_digits(n / 10).push((n % 10 + 48) as u8)
    }
}

/// ASCII decimal text of `n`, with a leading `-` when negative.
pub open spec fn int_text(n: int) -> Seq<u8> {
    if n < 0 {
        seq![45u8] + nat_digits((-n) as nat)
    } else {
        nat_digits(n as nat)
    }
}

/// Bencode of a byte string: its length, a colon, then the bytes.
pub open spec fn encode_bytes(b: Seq<u8>) -> Seq<u8> {
    nat_digits(b.len()) + seq![58u8] + b
}

/// Bencode of a value.
pub open spec fn encode_value(v: BValue) -> Seq<u8>
    decreases v, 0nat,
{
    match v {
        BValue::Int(n) => seq![105u8] + int_text(n) + seq![101u8],
        BValue::Bytes(b) => encode_bytes(b),
        BValue::List(items) => seq![108u8] + encode_items(items) + seq![101u8],
        BValue::Dict(entries) => seq![100u8] + encode_entries(entries) + seq![101u8],
    }
}

/// Concatenated bencode of the items of a list.
pub open spec fn encode_items(items: Seq<BValue>) -> Seq<u8>
    decreases items, 1nat,
{
    if items.len() == 0 {
        Seq::empty()
    } else {
        encode_value(items[0]) + encode_items(items.drop_first())
    }
}

/// Concatenated bencode of the key/value pairs of a dictionary, in the order held.
pub open spec fn encode_entries(entries: Seq<(Seq<u8>, BValue)>) -> Seq<u8>
    decreases entries, 1nat,
{
    if entries.len() == 0 {
        Seq::empty()
    } else {
        encode_bytes(entries[0].0) + encode_value(entries[0].1) + encode_entries(entries.drop_first())
    }
}

/// Every integer fits in an `i64` and every dictionary holds its keys in strictly increasing
/// order: the values this library produces.
pub open spec fn wf_value(v: BValue) -> bool
    decreases v,
{
    match v {
        BValue::Int(n) => i64::MIN <= n <= i64::MAX,
        BValue::Bytes(b) => true,
        BValue::List(items) => forall|i: int| 0 <= i < items.len() ==> wf_value(#[trigger] items[i]),
        BValue::Dict(entries) => keys_sorted(entries) && forall|i: int|
            0 <= i < entries.len() ==> wf_value(#[trigger] entries[i].1),
    }
}

/// Nesting depth of a value: scalars have depth zero.
pub open spec fn depth_value(v: BValue) -> nat
    decreases v, 0nat,
{
    match v {
        BValue::Int(_) => 0,
        BValue::Bytes(_) => 0,
        BValue::List(items) => 1 + depth_items(items),
        BValue::Dict(entries) => 1 + depth_entries(entries),
    }
}

/// Greatest depth among list items.
pub open spec fn depth_items(items: Seq<BValue>) -> nat
    decreases items, 1nat,
{
    if items.len() == 0 {
        0
    } else {
        let a = depth_value(items[0]);
        let b = depth_items(items.drop_first());
        if a > b { a } else { b }
    }
}

/// Greatest depth among dictionary values.
pub open spec fn depth_entries(entries: Seq<(Seq<u8>, BValue)>) -> nat
    decreases entries, 1nat,
{
    if entries.len() == 0 {
        0
    } else {
        let a = depth_value(entries[0].1);
        let b = depth_entries(entries.drop_first());
        if a > b { a } else { b }
    }
}


// ---------------------------------------------------------------------------
// Decoding
// ---------------------------------------------------------------------------

/// The value a decoded node stands for, without the bytes it was read from.
pub open spec fn strip(r: RefView) -> BValue
    decreases r,
{
    match r {
        RefView::Int(n, _) => BValue::Int(n),
        RefView::Bytes(b, _) => BValue::Bytes(b),
        RefView::List(items, _) => BValue::List(
            Seq::new(
                items.len(),
                |i: int|
                    if 0 <= i < items.len() {
                        strip(items[i])
                    } else {
                        BValue::Int(0)
                    },
            ),
        ),
        RefView::Dict(entries, _) => BValue::Dict(
            Seq::new(
                entries.len(),
                |i: int|
                    if 0 <= i < entries.len() {
                        (entries[i].0, strip(entries[i].1))
                    } else {
                        (Seq::empty(), BValue::Int(0))
                    },
            ),
        ),
    }
}

/// Options under which `Bencode::decode` reads its input: no practical nesting limit, keys
/// in order, and the value taking up all of the input.
pub open spec fn full_opts() -> DecodeOpts {
    DecodeOpts { max_recursion: usize::MAX as int, check_key_sort: true, enforce_full_decode: true }
}

/// Decoding a whole input under `opts`, giving the decoded node.
pub open spec fn decode_ref(s: Seq<u8>, opts: DecodeOpts) -> Result<RefView, ParseFailure> {
    match dec(s, 0, opts, 0) {
        Ok((r, end)) => if end != s.len() && opts.enforce_full_decode {
            Err(ParseFailure::BytesEmpty(end))
        } else {
            Ok(r)
        },
        Err(e) => Err(e),
    }
}

/// Decoding a whole input into a value, keys in order.
pub open spec fn decode_full(s: Seq<u8>) -> Result<BValue, ParseFailure> {
    match decode_ref(s, full_opts()) {
        Ok(r) => Ok(strip(r)),
        Err(e) => Err(e),
    }
}

/// The bytes a decoded node was read from.
pub open spec fn ref_buffer(r: RefView) -> Seq<u8> {
    match r {
        RefView::Int(_, b) => b,
        RefView::Bytes(_, b) => b,
        RefView::List(_, b) => b,
        RefView::Dict(_, b) => b,
    }
}

/// Index of the first occurrence of `b` at or after `pos`.
pub open spec fn find_byte(s: Seq<u8>, pos: int, b: u8) -> Option<int>
    decreases s.len() - pos,
{
    if pos < 0 || pos >= s.len() {
        None
    } else if s[pos] == b {
        Some(pos)
    } else {
        find_byte(s, pos + 1, b)
    }
}

pub open spec fn is_digit(b: u8) -> bool {
    48 <= b <= 57
}

pub open spec fn all_digits(t: Seq<u8>) -> bool {
    forall|i: int| 0 <= i < t.len() ==> is_digit(#[trigger] t[i])
}

/// Value of a string of decimal digits.
pub open spec fn digits_value(t: Seq<u8>) -> nat
    decreases t.len(),
{
    if t.len() == 0 {
        0
    } else {
        digits_value(t.drop_last()) * 10 + (t.last() - 48) as nat
    }
}

/// What reading `t` as a base-ten `i64` gives: an optional `+` or `-`, then at least one
/// digit, with a value in range.
pub open spec fn parse_i64(t: Seq<u8>) -> Option<int> {
    if t.len() > 0 && (t[0] == 43u8 || t[0] == 45u8) {
        let d = t.drop_first();
        let v = if t[0] == 45u8 { -digits_value(d) } else { digits_value(d) as int };
        if d.len() > 0 && all_digits(d) && i64::MIN <= v <= i64::MAX {
            Some(v)
        } else {
            None
        }
    } else if t.len() > 0 && all_digits(t) && digits_value(t) <= i64::MAX {
        Some(digits_value(t) as int)
    } else {
        None
    }
}

/// Decoding an integer whose text starts at `pos` and ends before the next `delim`.
/// On success, gives the integer and the position just after the delimiter.
pub open spec fn dec_int(s: Seq<u8>, pos: int, delim: u8) -> Result<(int, int), ParseFailure> {
    match find_byte(s, pos, delim) {
        None => Err(ParseFailure::InvalidIntNoDelimiter(pos)),
        Some(e) => {
            let t = s.subrange(pos, e);
            if t.len() > 1 && t[0] == 45u8 && t[1] == 48u8 {
                Err(ParseFailure::InvalidIntNegativeZero(pos))
            } else if t.len() > 1 && t[0] == 48u8 {
                Err(ParseFailure::InvalidIntZeroPadding(pos))
            } else {
                match parse_i64(t) {
                    Some(n) => Ok((n, e + 1)),
                    None => Err(ParseFailure::InvalidIntParseError(pos)),
                }
            }
        },
    }
}

/// Decoding a byte string whose length starts at `pos`.
pub open spec fn dec_bytes(s: Seq<u8>, pos: int) -> Result<(Seq<u8>, int), ParseFailure> {
    match dec_int(s, pos, 58u8) {
        Err(e) => Err(e),
        Ok((n, start)) => if n < 0 {
            Err(ParseFailure::InvalidLengthNegative(pos))
        } else if n > s.len() - start {
            Err(ParseFailure::InvalidLengthOverflow(pos))
        } else {
            Ok((s.subrange(start, start + n), start + n))
        },
    }
}

/// Decoding the value that starts at `pos`, nested `depth` levels deep.
pub open spec fn dec(s: Seq<u8>, pos: int, opts: DecodeOpts, depth: int) -> Result<
    (RefView, int),
    ParseFailure,
>
    decreases s.len() - pos, 1nat,
{
    if depth >= opts.max_recursion {
        Err(ParseFailure::InvalidRecursionExceeded(pos, depth))
    } else if pos < 0 || pos >= s.len() {
        Err(ParseFailure::BytesEmpty(pos))
    } else if s[pos] == 105u8 {
        match dec_int(s, pos + 1, 101u8) {
            Ok((n, next)) => Ok((RefView::Int(n, s.subrange(pos, next)), next)),
            Err(e) => Err(e),
        }
    } else if s[pos] == 108u8 {
        match dec_list(s, pos + 1, opts, depth + 1, Seq::empty()) {
            Ok((items, next)) => Ok((RefView::List(items, s.subrange(pos, next)), next)),
            Err(e) => Err(e),
        }
    } else if s[pos] == 100u8 {
        match dec_dict(s, pos + 1, opts, depth + 1, Seq::empty()) {
            Ok((entries, next)) => Ok((RefView::Dict(entries, s.subrange(pos, next)), next)),
            Err(e) => Err(e),
        }
    } else if is_digit(s[pos]) {
        match dec_bytes(s, pos) {
            Ok((b, next)) => Ok((RefView::Bytes(b, s.subrange(pos, next)), next)),
            Err(e) => Err(e),
        }
    } else {
        Err(ParseFailure::InvalidByte(pos))
    }
}

/// Decoding the items of a list from `pos` up to its end marker, after `acc` was read.
pub open spec fn dec_list(
    s: Seq<u8>,
    pos: int,
    opts: DecodeOpts,
    depth: int,
    acc: Seq<RefView>,
) -> Result<(Seq<RefView>, int), ParseFailure>
    decreases s.len() - pos, 2nat,
{
    if pos < 0 || pos >= s.len() {
        Err(ParseFailure::BytesEmpty(pos))
    } else if s[pos] == 101u8 {
        Ok((acc, pos + 1))
    } else {
        match dec(s, pos, opts, depth) {
            Err(e) => Err(e),
            Ok((v, next)) => if pos < next <= s.len() {
                dec_list(s, next, opts, depth, acc.push(v))
            } else {
                Err(ParseFailure::BytesEmpty(next))
            },
        }
    }
}

/// Decoding the entries of a dictionary from `pos` up to its end marker, after `acc` was read.
pub open spec fn dec_dict(
    s: Seq<u8>,
    pos: int,
    opts: DecodeOpts,
    depth: int,
    acc: Seq<(Seq<u8>, RefView)>,
) -> Result<(Seq<(Seq<u8>, RefView)>, int), ParseFailure>
    decreases s.len() - pos, 2nat,
{
    if pos < 0 || pos >= s.len() {
        Err(ParseFailure::BytesEmpty(pos))
    } else if s[pos] == 101u8 {
        Ok((acc, pos + 1))
    } else {
        match dec_bytes(s, pos) {
            Err(e) => Err(e),
            Ok((key, kend)) => if opts.check_key_sort && acc.len() > 0 && lex_lt(key, acc.last().0) {
                Err(ParseFailure::InvalidKeyOrdering(pos, key))
            } else if !(pos < kend <= s.len()) {
                Err(ParseFailure::BytesEmpty(kend))
            } else {
                match dec(s, kend, opts, depth) {
                    Err(e) => Err(e),
                    Ok((v, next)) => if has_key(acc, key) {
                        Err(ParseFailure::InvalidKeyDuplicates(kend, key))
                    } else if kend < next <= s.len() {
                        dec_dict(s, next, opts, depth, insert_entry(acc, key, v))
                    } else {
                        Err(ParseFailure::BytesEmpty(next))
                    },
                }
            },
        }
    }
}

} // verus!
