use vstd::prelude::*;

use crate::bencode::dict::BDict;
use crate::bencode::spec::BValue;

verus! {

/// Contents of an owned bencode value.
pub enum InnerBencodeMut {
    /// An integer.
    Int(i64),
    /// A byte string.
    Bytes(Vec<u8>),
    /// A list of values.
    List(Vec<Bencode>),
    /// A dictionary from byte strings to values.
    Dict(BDict<Bencode>),
}

/// An owned bencode value: what decoding yields, and what callers build up to encode.
pub struct Bencode {
    pub(crate) inner: InnerBencodeMut,
}

/// The same owned value, under the name used when building values to encode.
pub type BencodeMut = Bencode;

/// A value by its type, borrowing its contents, whose nested values are of type `T`.
pub enum BencodeRefKind<'b, T> {
    /// An integer.
    Int(i64),
    /// A byte string.
    Bytes(&'b [u8]),
    /// A list.
    List(&'b [T]),
    /// A dictionary.
    Dict(&'b BDict<T>),
}

/// A value by its type, with its list or dictionary open to changes.
pub enum BencodeMutKind<'b, T> {
    /// An integer.
    Int(i64),
    /// A byte string.
    Bytes(&'b [u8]),
    /// A list.
    List(&'b mut Vec<T>),
    /// A dictionary.
    Dict(&'b mut BDict<T>),
}

/// Model of an owned value.
pub(crate) open spec fn value_view(b: Bencode) -> BValue
    decreases b,
{
    match b.inner {
        InnerBencodeMut::Int(n) => BValue::Int(n as int),
        InnerBencodeMut::Bytes(bytes) => BValue::Bytes(bytes@),
        InnerBencodeMut::List(items) => BValue::List(
            Seq::new(
                items@.len(),
                |i: int|
                    if 0 <= i < items@.len() {
                        value_view(items@[i])
                    } else {
                        BValue::Int(0)
                    },
            ),
        ),
        InnerBencodeMut::Dict(d) => BValue::Dict(
            Seq::new(
                d.entries@.len(),
                |i: int|
                    if 0 <= i < d.entries@.len() {
                        (d.entries@[i].0@, value_view(d.entries@[i].1))
                    } else {
                        (Seq::empty(), BValue::Int(0))
                    },
            ),
        ),
    }
}

impl View for Bencode {
    type V = BValue;

    closed spec fn view(&self) -> BValue {
        value_view(*self)
    }
}

/// Inside the crate, the model of an owned value is `value_view`.
pub(crate) broadcast proof fn lemma_value_view(b: Bencode)
    ensures
        #[trigger] b@ == value_view(b),
{
}

/// Models of a sequence of owned values.
pub open spec fn values_view(items: Seq<Bencode>) -> Seq<BValue> {
    Seq::new(items.len(), |i: int| items[i]@)
}

/// Models of the entries of an owned dictionary.
pub open spec fn value_entries_view(entries: Seq<(Seq<u8>, Bencode)>) -> Seq<(Seq<u8>, BValue)> {
    Seq::new(entries.len(), |i: int| (entries[i].0, entries[i].1@))
}

/// The model of a list or dictionary is made of the models of its contents.
pub(crate) broadcast proof fn lemma_value_shape(b: Bencode)
    ensures
        #[trigger] value_view(b) == match b.inner {
            InnerBencodeMut::List(l) => BValue::List(values_view(l@)),
            InnerBencodeMut::Dict(d) => BValue::Dict(value_entries_view(d.kv())),
            _ => value_view(b),
        },
{
    match b.inner {
        InnerBencodeMut::List(l) => {
            assert(value_view(b)->List_0 =~= values_view(l@));
        },
        InnerBencodeMut::Dict(d) => {
            d.lemma_kv();
            assert(value_view(b)->Dict_0 =~= value_entries_view(d.kv()));
        },
        _ => {},
    }
}

} // verus!
