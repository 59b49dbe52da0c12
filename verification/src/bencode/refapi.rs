use vstd::prelude::*;
use vstd::string::StringSliceAdditionalSpecFns;
use vstd::utf8::valid_utf8;

use crate::bencode::decode::decode;
use crate::bencode::dict::BDict;
use crate::bencode::error::BencodeParseError;
use crate::bencode::mutable::utf8_text;
use crate::bencode::options::BDecodeOpt;
use crate::bencode::reference::{lemma_ref_shape, lemma_ref_view, ref_view, BencodeRef, InnerBencodeRef};
use crate::bencode::spec::{decode_ref, ref_buffer, RefView};
use crate::bencode::value::BencodeRefKind;

verus! {

broadcast use lemma_ref_view, lemma_ref_shape;

/// Models of a sequence of decoded values.
pub open spec fn ref_items_view(items: Seq<BencodeRef>) -> Seq<RefView> {
    Seq::new(items.len(), |i: int| items[i]@)
}

/// Models of the entries of a decoded dictionary.
/// The entries of a decoded dictionary, with their decoded values, if the value is one.
pub closed spec fn ref_dict<'a>(b: BencodeRef<'a>) -> Option<Seq<(Seq<u8>, BencodeRef<'a>)>> {
    match b.inner {
        InnerBencodeRef::Dict(d, _) => Some(d.kv()),
        _ => None,
    }
}

pub open spec fn ref_entries_view(entries: Seq<(Seq<u8>, BencodeRef)>) -> Seq<(Seq<u8>, RefView)> {
    Seq::new(entries.len(), |i: int| (entries[i].0, entries[i].1@))
}

impl<'a> BencodeRef<'a> {
    /// Decodes `bytes` under the given options.
    pub fn decode(bytes: &'a [u8], opts: BDecodeOpt) -> (r: Result<BencodeRef<'a>, BencodeParseError>)
        ensures
            match r {
                Ok(v) => decode_ref(bytes@, opts@) == Ok::<RefView, crate::bencode::spec::ParseFailure>(v@),
                Err(e) => decode_ref(bytes@, opts@) == Err::<RefView, crate::bencode::spec::ParseFailure>(e@),
            },
    {
        match decode(bytes, 0, opts, 0) {
            Err(e) => Err(e),
            Ok((v, end)) => if end != bytes.len() && opts.enforce_full_decode() {
                Err(BencodeParseError::BytesEmpty { pos: end })
            } else {
                Ok(v)
            },
        }
    }

    /// The bytes of the input this value was decoded from.
    pub fn buffer(&self) -> (r: &'a [u8])
        ensures
            r@ == ref_buffer(self@),
    {
        match &self.inner {
            InnerBencodeRef::Int(_, b) => b,
            InnerBencodeRef::Bytes(_, b) => b,
            InnerBencodeRef::List(_, b) => b,
            InnerBencodeRef::Dict(_, b) => b,
        }
    }

    /// The value by its type.
    pub fn kind(&self) -> (k: BencodeRefKind<'_, BencodeRef<'a>>)
        ensures
            self@ is Int <==> k is Int,
            self@ is Bytes <==> k is Bytes,
            self@ is List <==> k is List,
            self@ is Dict <==> k is Dict,
            k matches BencodeRefKind::Int(n) ==> self@->Int_0 == n as int,
            k matches BencodeRefKind::Bytes(b) ==> self@->Bytes_0 == b@,
            k matches BencodeRefKind::List(l) ==> self@->List_0 == ref_items_view(l@),
            k matches BencodeRefKind::Dict(d) ==> self@->Dict_0 == ref_entries_view(d.kv()),
    {
        match &self.inner {
            InnerBencodeRef::Int(n, _) => BencodeRefKind::Int(*n),
            InnerBencodeRef::Bytes(b, _) => BencodeRefKind::Bytes(*b),
            InnerBencodeRef::List(l, _) => {
                assert(self@->List_0 =~= ref_items_view(l@));
                BencodeRefKind::List(l.as_slice())
            },
            InnerBencodeRef::Dict(d, _) => {
                proof {
                    d.lemma_kv();
                }
                assert(self@->Dict_0 =~= ref_entries_view(d.kv()));
                BencodeRefKind::Dict(d)
            },
        }
    }

    /// The integer, if this value is one.
    pub fn int_value(&self) -> (r: Option<i64>)
        ensures
            self@ is Int <==> r is Some,
            r matches Some(n) ==> self@->Int_0 == n as int,
    {
        match &self.inner {
            InnerBencodeRef::Int(n, _) => Some(*n),
            _ => None,
        }
    }

    /// The bytes, if this value is a byte string.
    pub fn bytes(&self) -> (r: Option<&'a [u8]>)
        ensures
            self@ is Bytes <==> r is Some,
            r matches Some(b) ==> self@->Bytes_0 == b@,
    {
        match &self.inner {
            InnerBencodeRef::Bytes(b, _) => Some(*b),
            _ => None,
        }
    }

    /// The text, if this value is a byte string holding valid UTF-8.
    pub fn str(&self) -> (r: Option<&'a str>)
        ensures
            r is Some <==> (self@ is Bytes && valid_utf8(self@->Bytes_0)),
            r matches Some(s) ==> self@->Bytes_0 == s.spec_bytes(),
    {
        match self.bytes() {
            Some(b) => utf8_text(b),
            None => None,
        }
    }

    /// The items, if this value is a list.
    pub fn list(&self) -> (r: Option<&[BencodeRef<'a>]>)
        ensures
            self@ is List <==> r is Some,
            r matches Some(l) ==> self@->List_0 =~= ref_items_view(l@),
    {
        match &self.inner {
            InnerBencodeRef::List(l, _) => Some(l.as_slice()),
            _ => None,
        }
    }

    /// The dictionary, if this value is one.
    pub fn dict(&self) -> (r: Option<&BDict<BencodeRef<'a>>>)
        ensures
            self@ is Dict <==> r is Some,
            r matches Some(d) ==> self@->Dict_0 =~= ref_entries_view(d.kv()) && ref_dict(*self) == Some(d.kv()),
            r is None ==> ref_dict(*self) is None,
    {
        match &self.inner {
            InnerBencodeRef::Dict(d, _) => Some(d),
            _ => None,
        }
    }
}

} // verus!
