//! Text of error messages: decimal numbers and keys written out as characters.
use vstd::prelude::*;
use vstd::string::StringExecFns;

use crate::bencode::encode::push_decimal;
use crate::bencode::spec::nat_digits;

verus! {

/// The characters of the ASCII bytes `b`.
pub open spec fn ascii_chars(b: Seq<u8>) -> Seq<char> {
    Seq::new(b.len(), |i: int| b[i] as char)
}

/// The decimal digits of `n`, as characters.
pub open spec fn decimal_chars(n: nat) -> Seq<char> {
    ascii_chars(nat_digits(n))
}

/// The one-character text of the decimal digit `d`.
fn digit_str(d: u8) -> (r: &'static str)
    requires
        d < 10,
    ensures
        r@ == seq![((d + 48) as u8) as char],
{
    proof {
        reveal_strlit("0");
        reveal_strlit("1");
        reveal_strlit("2");
        reveal_strlit("3");
        reveal_strlit("4");
        reveal_strlit("5");
        reveal_strlit("6");
        reveal_strlit("7");
        reveal_strlit("8");
        reveal_strlit("9");
    }
    if d == 0 {
        "0"
    } else if d == 1 {
        "1"
    } else if d == 2 {
        "2"
    } else if d == 3 {
        "3"
    } else if d == 4 {
        "4"
    } else if d == 5 {
        "5"
    } else if d == 6 {
        "6"
    } else if d == 7 {
        "7"
    } else if d == 8 {
        "8"
    } else {
        "9"
    }
}

/// The digits of a number are decimal digits.
proof fn lemma_digits_are_digits(n: nat)
    ensures
        forall|i: int| 0 <= i < nat_digits(n).len() ==> 48 <= #[trigger] nat_digits(n)[i] <= 57,
    decreases n,
{
    if n >= 10 {
        lemma_digits_are_digits(n / 10);
        let d = nat_digits(n);
        let p = nat_digits(n / 10);
        assert(d == p.push((n % 10 + 48) as u8));
        assert forall|i: int| 0 <= i < d.len() implies 48 <= #[trigger] d[i] <= 57 by {
            if i < p.len() {
                assert(d[i] == p[i]);
            }
        }
    }
}

/// Appends the decimal text of `n` to `s`.
pub fn push_decimal_text(s: &mut String, n: u64)
    ensures
        final(s)@ == old(s)@ + decimal_chars(n as nat),
{
    let mut digits: Vec<u8> = Vec::new();
    push_decimal(n, &mut digits);
    assert(digits@ =~= nat_digits(n as nat));
    proof {
        lemma_digits_are_digits(n as nat);
    }
    let ghost start = s@;
    let mut i: usize = 0;
    while i < digits.len()
        invariant
            digits@ == nat_digits(n as nat),
            forall|k: int| 0 <= k < digits@.len() ==> 48 <= #[trigger] digits@[k] <= 57,
            i <= digits@.len(),
            s@ == start + ascii_chars(digits@.subrange(0, i as int)),
        decreases digits@.len() - i,
    {
        let d = digits[i] - 48;
        s.append(digit_str(d));
        i = i + 1;
        assert(ascii_chars(digits@.subrange(0, i as int)) =~= ascii_chars(digits@.subrange(0, i - 1)).push(
            digits@[i - 1] as char,
        ));
        assert(s@ =~= start + ascii_chars(digits@.subrange(0, i as int)));
    }
    assert(digits@.subrange(0, i as int) =~= digits@);
}

/// The text `prefix` followed by the decimal text of `n`.
pub fn text_with_number(prefix: &str, n: u64) -> (r: String)
    ensures
        r@ == prefix@ + decimal_chars(n as nat),
{
    let mut s = String::from_str(prefix);
    push_decimal_text(&mut s, n);
    s
}

/// The text `prefix` followed by the text of the key `key` (its bytes read as UTF-8, or
/// nothing when they are not).
pub fn text_with_key(prefix: &str, key: &[u8]) -> (r: String)
    ensures
        vstd::utf8::valid_utf8(key@) ==> r@ == prefix@ + vstd::utf8::decode_utf8(key@),
        !vstd::utf8::valid_utf8(key@) ==> r@ == prefix@,
{
    let mut s = String::from_str(prefix);
    match crate::bencode::mutable::utf8_text(key) {
        Some(k) => {
            proof {
                vstd::utf8::encode_utf8_decode_utf8(k@);
            }
            s.append(k);
        },
        None => {},
    }
    s
}

} // verus!
