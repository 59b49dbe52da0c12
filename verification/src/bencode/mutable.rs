use vstd::prelude::*;
use vstd::string::StringSliceAdditionalSpecFns;
use vstd::utf8::valid_utf8;

use crate::bencode::dict::BDict;
use crate::bencode::encode::{
    lemma_encode_entries_append, lemma_encode_entries_single, lemma_encode_items_append,
    lemma_encode_items_single, push_bytes, push_int_text,
};
use crate::bencode::decode::decode;
use crate::bencode::error::BencodeParseError;
use crate::bencode::options::BDecodeOpt;
use crate::bencode::reference::{lemma_ref_shape, lemma_ref_view, ref_view, BencodeRef, InnerBencodeRef};
use crate::bencode::spec::{decode_full, depth_value, encode_value, keys_sorted, strip, wf_value, BValue, ParseFailure};
use crate::bencode::value::{
    lemma_value_shape, lemma_value_view, value_entries_view, value_view, values_view, Bencode, BencodeMutKind, BencodeRefKind, InnerBencodeMut,
};
use crate::bencode::{BEN_END, DICT_START, INT_START, LIST_START};

verus! {

broadcast use lemma_value_view, lemma_value_shape, lemma_ref_view, lemma_ref_shape;

/// Reads bytes as UTF-8 text, when they are valid UTF-8 (`std::str::from_utf8`).
#[verifier::external_body]
pub(crate) fn utf8_text(bytes: &[u8]) -> (r: Option<&str>)
    ensures
        r is Some <==> valid_utf8(bytes@),
        r matches Some(s) ==> s.spec_bytes() == bytes@,
{
    std::str::from_utf8(bytes).ok()
}

impl Bencode {
    /// A new integer value.
    pub fn new_int(value: i64) -> (b: Bencode)
        ensures
            b@ == BValue::Int(value as int),
    {
        Bencode { inner: InnerBencodeMut::Int(value) }
    }

    /// A new byte string value.
    pub fn new_bytes(value: Vec<u8>) -> (b: Bencode)
        ensures
            b@ == BValue::Bytes(value@),
    {
        Bencode { inner: InnerBencodeMut::Bytes(value) }
    }

    /// A new empty list.
    pub fn new_list() -> (b: Bencode)
        ensures
            b@ == BValue::List(Seq::empty()),
    {
        let l: Vec<Bencode> = Vec::new();
        let b = Bencode { inner: InnerBencodeMut::List(l) };
        assert(b.inner == InnerBencodeMut::List(l));
        assert(value_view(b)->List_0 =~= Seq::<BValue>::empty());
        assert(value_view(b) =~= BValue::List(Seq::empty()));
        b
    }

    /// A new empty dictionary.
    pub fn new_dict() -> (b: Bencode)
        ensures
            b@ == BValue::Dict(Seq::empty()),
    {
        let d: BDict<Bencode> = BDict::new();
        proof {
            d.lemma_kv();
        }
        let b = Bencode { inner: InnerBencodeMut::Dict(d) };
        assert(b.inner == InnerBencodeMut::Dict(d));
        assert(value_view(b)->Dict_0 =~= Seq::<(Seq<u8>, BValue)>::empty());
        assert(value_view(b) =~= BValue::Dict(Seq::empty()));
        b
    }

    /// The value by its type.
    pub fn kind(&self) -> (k: BencodeRefKind<'_, Bencode>)
        ensures
            self@ is Int <==> k is Int,
            self@ is Bytes <==> k is Bytes,
            self@ is List <==> k is List,
            self@ is Dict <==> k is Dict,
            k matches BencodeRefKind::Int(n) ==> self@ == BValue::Int(n as int),
            k matches BencodeRefKind::Bytes(b) ==> self@ == BValue::Bytes(b@),
            k matches BencodeRefKind::List(l) ==> self@ == BValue::List(values_view(l@)),
            k matches BencodeRefKind::Dict(d) ==> self@ == BValue::Dict(value_entries_view(d.kv())),
    {
        match &self.inner {
            InnerBencodeMut::Int(n) => BencodeRefKind::Int(*n),
            InnerBencodeMut::Bytes(b) => BencodeRefKind::Bytes(b.as_slice()),
            InnerBencodeMut::List(l) => {
                assert(self.inner == InnerBencodeMut::List(*l));
                assert(value_view(*self)->List_0 =~= values_view(l@));
                assert(value_view(*self) =~= BValue::List(values_view(l@)));
                BencodeRefKind::List(l.as_slice())
            },
            InnerBencodeMut::Dict(d) => {
                proof {
                    d.lemma_kv();
                }
                assert(self.inner == InnerBencodeMut::Dict(*d));
                assert(value_view(*self)->Dict_0 =~= value_entries_view(d.kv()));
                assert(value_view(*self) =~= BValue::Dict(value_entries_view(d.kv())));
                BencodeRefKind::Dict(d)
            },
        }
    }

    /// The integer, if this value is one.
    pub fn int_value(&self) -> (r: Option<i64>)
        ensures
            self@ is Int <==> r is Some,
            r matches Some(n) ==> self@ == BValue::Int(n as int),
    {
        match &self.inner {
            InnerBencodeMut::Int(n) => Some(*n),
            _ => None,
        }
    }

    /// The bytes, if this value is a byte string.
    pub fn bytes(&self) -> (r: Option<&[u8]>)
        ensures
            self@ is Bytes <==> r is Some,
            r matches Some(b) ==> self@ == BValue::Bytes(b@),
    {
        match &self.inner {
            InnerBencodeMut::Bytes(b) => Some(b.as_slice()),
            _ => None,
        }
    }

    /// The text, if this value is a byte string holding valid UTF-8.
    pub fn str(&self) -> (r: Option<&str>)
        ensures
            r is Some <==> (self@ is Bytes && valid_utf8(self@->Bytes_0)),
            r matches Some(s) ==> self@ == BValue::Bytes(s.spec_bytes()),
    {
        match self.bytes() {
            Some(b) => utf8_text(b),
            None => None,
        }
    }

    /// The items, if this value is a list.
    pub fn list(&self) -> (r: Option<&[Bencode]>)
        ensures
            self@ is List <==> r is Some,
            r matches Some(l) ==> self@ == BValue::List(values_view(l@)),
    {
        match &self.inner {
            InnerBencodeMut::List(l) => {
                assert(self.inner == InnerBencodeMut::List(*l));
                assert(value_view(*self)->List_0 =~= values_view(l@));
                assert(value_view(*self) =~= BValue::List(values_view(l@)));
                Some(l.as_slice())
            },
            _ => None,
        }
    }

    /// The dictionary, if this value is one.
    pub fn dict(&self) -> (r: Option<&BDict<Bencode>>)
        ensures
            self@ is Dict <==> r is Some,
            r matches Some(d) ==> self@ == BValue::Dict(value_entries_view(d.kv())),
    {
        match &self.inner {
            InnerBencodeMut::Dict(d) => {
                proof {
                    d.lemma_kv();
                }
                assert(self.inner == InnerBencodeMut::Dict(*d));
                assert(value_view(*self)->Dict_0 =~= value_entries_view(d.kv()));
                assert(value_view(*self) =~= BValue::Dict(value_entries_view(d.kv())));
                Some(d)
            },
            _ => None,
        }
    }

    /// The value by its type, with its list or dictionary open to changes.
    pub fn kind_mut(&mut self) -> (k: BencodeMutKind<'_, Bencode>)
        ensures
            old(self)@ is Int <==> k is Int,
            old(self)@ is Bytes <==> k is Bytes,
            old(self)@ is List <==> k is List,
            old(self)@ is Dict <==> k is Dict,
            k matches BencodeMutKind::Int(n) ==> old(self)@ == BValue::Int(n as int) && final(self)@ == old(self)@,
            k matches BencodeMutKind::Bytes(b) ==> old(self)@ == BValue::Bytes(b@) && final(self)@ == old(self)@,
            k matches BencodeMutKind::List(l) ==> old(self)@ =~= BValue::List(values_view(l@)) && final(self)@ =~= BValue::List(
                values_view(final(l)@),
            ),
            k matches BencodeMutKind::Dict(d) ==> old(self)@ =~= BValue::Dict(value_entries_view(d.kv())) && final(self)@
                =~= BValue::Dict(value_entries_view(final(d).kv())),
    {
        match &mut self.inner {
            InnerBencodeMut::Int(n) => BencodeMutKind::Int(*n),
            InnerBencodeMut::Bytes(b) => BencodeMutKind::Bytes(b.as_slice()),
            InnerBencodeMut::List(l) => BencodeMutKind::List(l),
            InnerBencodeMut::Dict(d) => BencodeMutKind::Dict(d),
        }
    }

    /// Mutable access to the items, if this value is a list.
    pub fn list_mut(&mut self) -> (r: Option<&mut Vec<Bencode>>)
        ensures
            old(self)@ is List <==> r is Some,
            r matches Some(l) ==> old(self)@ =~= BValue::List(values_view(l@)) && final(self)@ =~= BValue::List(
                values_view(final(l)@),
            ),
            r is None ==> final(self)@ == old(self)@,
    {
        match &mut self.inner {
            InnerBencodeMut::List(l) => Some(l),
            _ => None,
        }
    }

    /// Mutable access to the entries, if this value is a dictionary.
    pub fn dict_mut(&mut self) -> (r: Option<&mut BDict<Bencode>>)
        ensures
            old(self)@ is Dict <==> r is Some,
            r matches Some(d) ==> old(self)@ =~= BValue::Dict(value_entries_view(d.kv())) && final(self)@
                =~= BValue::Dict(value_entries_view(final(d).kv())),
            r is None ==> final(self)@ == old(self)@,
    {
        match &mut self.inner {
            InnerBencodeMut::Dict(d) => Some(d),
            _ => None,
        }
    }

    /// Decodes `bytes`, which must hold exactly one value whose dictionary keys are in order.
    pub fn decode(bytes: &[u8]) -> (r: Result<Bencode, BencodeParseError>)
        ensures
            match r {
                Ok(v) => decode_full(bytes@) == Ok::<BValue, ParseFailure>(v@),
                Err(e) => decode_full(bytes@) == Err::<BValue, ParseFailure>(e@),
            },
    {
        let opts = BDecodeOpt::new(usize::MAX, true, true);
        match decode(bytes, 0, opts, 0) {
            Err(e) => Err(e),
            Ok((v, end)) => if end != bytes.len() {
                Err(BencodeParseError::BytesEmpty { pos: end })
            } else {
                Ok(owned_from_ref(&v))
            },
        }
    }

    /// The bencode of this value.
    /// Every value has its integers in the range of an `i64` and its dictionary keys in
    /// strictly increasing order, so decoding what this gives gives the value back (for
    /// encodings and nestings within the machine's limits).
    pub fn encode(&self) -> (out: Vec<u8>)
        ensures
            out@ == encode_value(self@),
            wf_value(self@),
            out@.len() <= i64::MAX && depth_value(self@) < usize::MAX ==> decode_full(out@) == Ok::<BValue, ParseFailure>(self@),
    {
        let mut out: Vec<u8> = Vec::new();
        encode_into(self, &mut out);
        assert(out@ =~= Seq::<u8>::empty() + encode_value(value_view(*self)));
        proof {
            if out@.len() <= i64::MAX && depth_value(self@) < usize::MAX {
                crate::bencode::laws::lemma_decode_of_encode(self@);
            }
        }
        out
    }
}

/// An owned copy of a decoded value.
fn owned_from_ref(r: &BencodeRef) -> (b: Bencode)
    ensures
        b@ == strip(r@),
    decreases r,
{
    match &r.inner {
        InnerBencodeRef::Int(n, _) => Bencode::new_int(*n),
        InnerBencodeRef::Bytes(bs, _) => Bencode::new_bytes(vstd::slice::slice_to_vec(bs)),
        InnerBencodeRef::List(items, _) => {
            let mut out: Vec<Bencode> = Vec::new();
            let mut i: usize = 0;
            while i < items.len()
                invariant
                    i <= items@.len(),
                    out@.len() == i,
                    forall|j: int| 0 <= j < i ==> #[trigger] value_view(out@[j]) == strip(ref_view(items@[j])),
                    forall|j: int| 0 <= j < items@.len() ==> decreases_to!(*r => #[trigger] items@[j]),
                decreases items@.len() - i,
            {
                let b = owned_from_ref(&items[i]);
                out.push(b);
                i = i + 1;
            }
            let b = Bencode { inner: InnerBencodeMut::List(out) };
            proof {
                let ghost rv = ref_view(*r);
                assert(rv->List_0 =~= Seq::new(items@.len(), |j: int| ref_view(items@[j])));
                assert(value_view(b)->List_0 =~= values_view(out@));
                assert(strip(rv)->List_0 =~= values_view(out@));
            }
            b
        },
        InnerBencodeRef::Dict(d, _) => {
            let n = d.len();
            proof {
                d.lemma_kv();
            }
            let mut out: Vec<(Vec<u8>, Bencode)> = Vec::new();
            let mut i: usize = 0;
            while i < n
                invariant
                    i <= n,
                    n == d.kv().len(),
                    d.kv().len() == d.entries@.len(),
                    keys_sorted(d.kv()),
                    forall|j: int| 0 <= j < d.entries@.len() ==> #[trigger] d.kv()[j] == (d.entries@[j].0@, d.entries@[j].1),
                    out@.len() == i,
                    forall|j: int| 0 <= j < i ==> #[trigger] out@[j].0@ == d.kv()[j].0 && value_view(out@[j].1) == strip(
                        ref_view(d.kv()[j].1),
                    ),
                    forall|j: int| 0 <= j < d.entries@.len() ==> decreases_to!(*r => #[trigger] d.entries@[j].1),
                decreases n - i,
            {
                let (k, v) = d.entry(i);
                let b = owned_from_ref(v);
                out.push((vstd::slice::slice_to_vec(k), b));
                i = i + 1;
            }
            let ghost m = out@.map_values(|e: (Vec<u8>, Bencode)| (e.0@, e.1));
            assert forall|a: int, c: int| 0 <= a < c < m.len() implies crate::bencode::spec::lex_lt(
                #[trigger] m[a].0,
                #[trigger] m[c].0,
            ) by {
                assert(m[a].0 == d.kv()[a].0);
                assert(m[c].0 == d.kv()[c].0);
            }
            let ghost outv = out@;
            let nd = BDict::from_sorted(out);
            let b = Bencode { inner: InnerBencodeMut::Dict(nd) };
            proof {
                nd.lemma_kv();
                let ghost rv = ref_view(*r);
                assert(rv->Dict_0 =~= Seq::new(d.kv().len(), |j: int| (d.kv()[j].0, ref_view(d.kv()[j].1))));
                assert(value_view(b)->Dict_0 =~= value_entries_view(nd.kv()));
                assert(strip(rv)->Dict_0 =~= value_entries_view(nd.kv()));
            }
            b
        },
    }
}

/// Appends the bencode of `v`.
pub fn encode_into(v: &Bencode, out: &mut Vec<u8>)
    ensures
        final(out)@ == old(out)@ + encode_value(v@),
        wf_value(v@),
    decreases v,
{
    let ghost start = out@;
    match &v.inner {
        InnerBencodeMut::Int(n) => {
            out.push(INT_START);
            push_int_text(*n, out);
            out.push(BEN_END);
            assert(out@ =~= start + encode_value(value_view(*v)));
        },
        InnerBencodeMut::Bytes(b) => {
            push_bytes(b.as_slice(), out);
        },
        InnerBencodeMut::List(items) => {
            out.push(LIST_START);
            let ghost vs = values_view(items@);
            let mut i: usize = 0;
            while i < items.len()
                invariant
                    i <= items@.len(),
                    vs == values_view(items@),
                    out@ == start + seq![108u8] + crate::bencode::spec::encode_items(vs.subrange(0, i as int)),
                    forall|j: int| 0 <= j < items@.len() ==> decreases_to!(*v => #[trigger] items@[j]),
                    forall|j: int| 0 <= j < i ==> wf_value(#[trigger] vs[j]),
                decreases items@.len() - i,
            {
                let ghost before = out@;
                encode_into(&items[i], out);
                proof {
                    lemma_encode_items_append(vs.subrange(0, i as int), seq![vs[i as int]]);
                    lemma_encode_items_single(vs[i as int]);
                    assert(vs.subrange(0, i as int) + seq![vs[i as int]] =~= vs.subrange(0, i + 1));
                }
                i = i + 1;
                assert(out@ =~= start + seq![108u8] + crate::bencode::spec::encode_items(vs.subrange(0, i as int)));
            }
            out.push(BEN_END);
            assert(vs.subrange(0, i as int) =~= vs);
            assert(v.inner == InnerBencodeMut::List(*items));
            assert(value_view(*v)->List_0 =~= vs);
            assert(value_view(*v) =~= BValue::List(vs));
            assert(out@ =~= start + encode_value(value_view(*v)));
        },
        InnerBencodeMut::Dict(d) => {
            out.push(DICT_START);
            let n = d.len();
            proof {
                d.lemma_kv();
            }
            let ghost es = value_entries_view(d.kv());
            let mut i: usize = 0;
            while i < n
                invariant
                    i <= n,
                    n == d.kv().len(),
                    es == value_entries_view(d.kv()),
                    d.kv().len() == d.entries@.len(),
                    forall|j: int| 0 <= j < d.entries@.len() ==> #[trigger] d.kv()[j] == (d.entries@[j].0@, d.entries@[j].1),
                    out@ == start + seq![100u8] + crate::bencode::spec::encode_entries(es.subrange(0, i as int)),
                    forall|j: int| 0 <= j < d.entries@.len() ==> decreases_to!(*v => #[trigger] d.entries@[j].1),
                    forall|j: int| 0 <= j < i ==> wf_value(#[trigger] es[j].1),
                    keys_sorted(d.kv()),
                decreases n - i,
            {
                let (k, val) = d.entry(i);
                push_bytes(k, out);
                encode_into(val, out);
                proof {
                    lemma_encode_entries_append(es.subrange(0, i as int), seq![es[i as int]]);
                    lemma_encode_entries_single(es[i as int].0, es[i as int].1);
                    assert(es.subrange(0, i as int) + seq![es[i as int]] =~= es.subrange(0, i + 1));
                }
                i = i + 1;
                assert(out@ =~= start + seq![100u8] + crate::bencode::spec::encode_entries(es.subrange(0, i as int)));
            }
            out.push(BEN_END);
            assert(es.subrange(0, i as int) =~= es);
            assert(v.inner == InnerBencodeMut::Dict(*d));
            assert(value_view(*v)->Dict_0 =~= es);
            assert(value_view(*v) =~= BValue::Dict(es));
            assert(out@ =~= start + encode_value(value_view(*v)));
            assert(keys_sorted(es)) by {
                assert forall|a: int, b: int| 0 <= a < b < es.len() implies crate::bencode::spec::lex_lt(
                    #[trigger] es[a].0,
                    #[trigger] es[b].0,
                ) by {
                    assert(d.kv()[a].0 == es[a].0 && d.kv()[b].0 == es[b].0);
                }
            }
        },
    }
}

} // verus!
