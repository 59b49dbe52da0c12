//! Reading decoded values as the types a caller expects, with an error naming the key.
use vstd::prelude::*;
use vstd::string::{StringExecFns, StringSliceAdditionalSpecFns};
use vstd::utf8::valid_utf8;

use crate::bencode::dict::{find_key, BDict};
use crate::bencode::error::{BencodeConvertError, ConvertFailure};
use crate::bencode::reference::BencodeRef;
use crate::bencode::refapi::ref_items_view;
use crate::bencode::spec::RefView;

verus! {

/// Name of the integer type in conversion errors.
pub open spec fn integer_name() -> Seq<char> {
    seq!['I', 'n', 't', 'e', 'g', 'e', 'r']
}

/// Name of the byte string type in conversion errors.
pub open spec fn bytes_name() -> Seq<char> {
    seq!['B', 'y', 't', 'e', 's']
}

/// Name of the text type in conversion errors.
pub open spec fn utf8_name() -> Seq<char> {
    seq!['U', 'T', 'F', '-', '8', ' ', 'B', 'y', 't', 'e', 's']
}

/// Name of the list type in conversion errors.
pub open spec fn list_name() -> Seq<char> {
    seq!['L', 'i', 's', 't']
}

/// Name of the dictionary type in conversion errors.
pub open spec fn dict_name() -> Seq<char> {
    seq!['D', 'i', 'c', 't', 'i', 'o', 'n', 'a', 'r', 'y']
}

/// The value under `key` in `entries`, if any.
pub open spec fn entry_value<'a>(entries: Seq<(Seq<u8>, BencodeRef<'a>)>, key: Seq<u8>) -> Option<RefView> {
    match find_key(entries, key) {
        Some(i) => Some(entries[i].1@),
        None => None,
    }
}

/// The decoded value under `key` in `entries`, if any.
pub open spec fn entry_ref<'a>(entries: Seq<(Seq<u8>, BencodeRef<'a>)>, key: Seq<u8>) -> Option<BencodeRef<'a>> {
    match find_key(entries, key) {
        Some(i) => Some(entries[i].1),
        None => None,
    }
}

/// The entries of the dictionary under `key` in `entries`, or why there is none.
pub open spec fn dict_entry<'a>(entries: Seq<(Seq<u8>, BencodeRef<'a>)>, key: Seq<u8>) -> Result<
    Seq<(Seq<u8>, BencodeRef<'a>)>,
    ConvertFailure,
> {
    match entry_ref(entries, key) {
        None => Err(ConvertFailure::MissingKey(key)),
        Some(v) => match crate::bencode::refapi::ref_dict(v) {
            Some(kv) => Ok(kv),
            None => Err(ConvertFailure::WrongType(key, dict_name())),
        },
    }
}

/// An error for a value under `key` that is not of the type named `name`.
fn wrong_type(key: &[u8], name: &str) -> (e: BencodeConvertError)
    ensures
        e@ == ConvertFailure::WrongType(key@, name@),
{
    BencodeConvertError::WrongType { key: vstd::slice::slice_to_vec(key), expected_type: String::from_str(name) }
}

/// The integer `b` holds.
pub fn convert_int(b: &BencodeRef, error_key: &[u8]) -> (r: Result<i64, BencodeConvertError>)
    ensures
        b@ is Int <==> r is Ok,
        r matches Ok(n) ==> b@->Int_0 == n as int,
        r matches Err(e) ==> e@ == ConvertFailure::WrongType(error_key@, integer_name()),
{
    match b.int_value() {
        Some(n) => Ok(n),
        None => {
            proof {
                reveal_strlit("Integer");
                assert("Integer"@ =~= integer_name());
            }
            Err(wrong_type(error_key, "Integer"))
        },
    }
}

/// The bytes `b` holds.
pub fn convert_bytes<'a>(b: &BencodeRef<'a>, error_key: &[u8]) -> (r: Result<&'a [u8], BencodeConvertError>)
    ensures
        b@ is Bytes <==> r is Ok,
        r matches Ok(s) ==> b@->Bytes_0 == s@,
        r matches Err(e) ==> e@ == ConvertFailure::WrongType(error_key@, bytes_name()),
{
    match b.bytes() {
        Some(s) => Ok(s),
        None => {
            proof {
                reveal_strlit("Bytes");
                assert("Bytes"@ =~= bytes_name());
            }
            Err(wrong_type(error_key, "Bytes"))
        },
    }
}

/// The text `b` holds, if it is a byte string holding UTF-8.
pub fn convert_str<'a>(b: &BencodeRef<'a>, error_key: &[u8]) -> (r: Result<&'a str, BencodeConvertError>)
    ensures
        (b@ is Bytes && valid_utf8(b@->Bytes_0)) <==> r is Ok,
        r matches Ok(s) ==> b@->Bytes_0 == s.spec_bytes(),
        r matches Err(e) ==> e@ == ConvertFailure::WrongType(error_key@, utf8_name()),
{
    match b.str() {
        Some(s) => Ok(s),
        None => {
            proof {
                reveal_strlit("UTF-8 Bytes");
                assert("UTF-8 Bytes"@ =~= utf8_name());
            }
            Err(wrong_type(error_key, "UTF-8 Bytes"))
        },
    }
}

/// The items of the list `b` holds.
pub fn convert_list<'a, 'b>(b: &'b BencodeRef<'a>, error_key: &[u8]) -> (r: Result<&'b [BencodeRef<'a>], BencodeConvertError>)
    ensures
        b@ is List <==> r is Ok,
        r matches Ok(l) ==> b@->List_0 == ref_items_view(l@),
        r matches Err(e) ==> e@ == ConvertFailure::WrongType(error_key@, list_name()),
{
    match b.list() {
        Some(l) => Ok(l),
        None => {
            proof {
                reveal_strlit("List");
                assert("List"@ =~= list_name());
            }
            Err(wrong_type(error_key, "List"))
        },
    }
}

/// The dictionary `b` holds.
pub fn convert_dict<'a, 'b>(b: &'b BencodeRef<'a>, error_key: &[u8]) -> (r: Result<&'b BDict<BencodeRef<'a>>, BencodeConvertError>)
    ensures
        b@ is Dict <==> r is Ok,
        r matches Ok(d) ==> b@->Dict_0 == crate::bencode::refapi::ref_entries_view(d.kv())
            && crate::bencode::refapi::ref_dict(*b) == Some(d.kv()),
        crate::bencode::refapi::ref_dict(*b) is Some <==> r is Ok,
        r matches Err(e) ==> e@ == ConvertFailure::WrongType(error_key@, dict_name()),
{
    match b.dict() {
        Some(d) => Ok(d),
        None => {
            proof {
                reveal_strlit("Dictionary");
                assert("Dictionary"@ =~= dict_name());
            }
            Err(wrong_type(error_key, "Dictionary"))
        },
    }
}

/// The value under `key` in `dictionary`.
pub fn lookup<'a, 'b>(dictionary: &'b BDict<BencodeRef<'a>>, key: &[u8]) -> (r: Result<&'b BencodeRef<'a>, BencodeConvertError>)
    ensures
        entry_value(dictionary.kv(), key@) is Some <==> r is Ok,
        r matches Ok(v) ==> entry_value(dictionary.kv(), key@) == Some(v@) && entry_ref(dictionary.kv(), key@) == Some(
            *v,
        ),
        r is Err ==> entry_ref(dictionary.kv(), key@) is None,
        r matches Err(e) ==> e@ == ConvertFailure::MissingKey(key@),
{
    match dictionary.lookup(key) {
        Some(v) => Ok(v),
        None => Err(BencodeConvertError::MissingKey { key: vstd::slice::slice_to_vec(key) }),
    }
}

/// The integer under `key` in `dictionary`.
pub fn lookup_and_convert_int(dictionary: &BDict<BencodeRef>, key: &[u8]) -> (r: Result<i64, BencodeConvertError>)
    ensures
        match entry_value(dictionary.kv(), key@) {
            None => r matches Err(e) && e@ == ConvertFailure::MissingKey(key@),
            Some(RefView::Int(n, _)) => r == Ok::<i64, BencodeConvertError>(n as i64) && i64::MIN <= n <= i64::MAX,
            Some(_) => r matches Err(e) && e@ == ConvertFailure::WrongType(key@, integer_name()),
        },
{
    let v = lookup(dictionary, key)?;
    convert_int(v, key)
}

/// The bytes under `key` in `dictionary`.
pub fn lookup_and_convert_bytes<'a>(dictionary: &BDict<BencodeRef<'a>>, key: &[u8]) -> (r: Result<&'a [u8], BencodeConvertError>)
    ensures
        match entry_value(dictionary.kv(), key@) {
            None => r matches Err(e) && e@ == ConvertFailure::MissingKey(key@),
            Some(RefView::Bytes(b, _)) => r matches Ok(s) && s@ == b,
            Some(_) => r matches Err(e) && e@ == ConvertFailure::WrongType(key@, bytes_name()),
        },
{
    let v = lookup(dictionary, key)?;
    convert_bytes(v, key)
}

/// The list under `key` in `dictionary`.
pub fn lookup_and_convert_list<'a, 'b>(dictionary: &'b BDict<BencodeRef<'a>>, key: &[u8]) -> (r: Result<&'b [BencodeRef<'a>], BencodeConvertError>)
    ensures
        match entry_value(dictionary.kv(), key@) {
            None => r matches Err(e) && e@ == ConvertFailure::MissingKey(key@),
            Some(RefView::List(items, _)) => r matches Ok(l) && ref_items_view(l@) == items,
            Some(_) => r matches Err(e) && e@ == ConvertFailure::WrongType(key@, list_name()),
        },
{
    let v = lookup(dictionary, key)?;
    convert_list(v, key)
}

/// The dictionary under `key` in `dictionary`.
pub fn lookup_and_convert_dict<'a, 'b>(dictionary: &'b BDict<BencodeRef<'a>>, key: &[u8]) -> (r: Result<&'b BDict<BencodeRef<'a>>, BencodeConvertError>)
    ensures
        match entry_value(dictionary.kv(), key@) {
            None => r matches Err(e) && e@ == ConvertFailure::MissingKey(key@),
            Some(RefView::Dict(entries, _)) => r matches Ok(d) && crate::bencode::refapi::ref_entries_view(d.kv()) == entries,
            Some(_) => r matches Err(e) && e@ == ConvertFailure::WrongType(key@, dict_name()),
        },
        match dict_entry(dictionary.kv(), key@) {
            Ok(kv) => r matches Ok(d) && d.kv() == kv,
            Err(f) => r matches Err(e) && e@ == f,
        },
{
    let v = lookup(dictionary, key)?;
    convert_dict(v, key)
}

/// Conversion of bencode values that turns conversion errors into errors of the caller's own.
pub trait BencodeConvert {
    /// The caller's error type.
    type Error;

    /// Turns a conversion error into the caller's error.
    fn handle_error(&self, error: BencodeConvertError) -> Self::Error;
}

} // verus!
