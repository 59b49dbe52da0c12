use vstd::prelude::*;

use crate::bencode::dict::BDict;
use crate::bencode::spec::{ref_buffer, RefView};

verus! {

/// A decoded value that keeps, for itself and for every nested value, the bytes of the
/// input it was decoded from.
pub enum InnerBencodeRef<'a> {
    /// An integer and its bytes.
    Int(i64, &'a [u8]),
    /// A byte string and its bytes.
    Bytes(&'a [u8], &'a [u8]),
    /// A list and its bytes.
    List(Vec<BencodeRef<'a>>, &'a [u8]),
    /// A dictionary and its bytes.
    Dict(BDict<BencodeRef<'a>>, &'a [u8]),
}

/// A decoded value borrowing the buffer it was decoded from.
pub struct BencodeRef<'a> {
    pub(crate) inner: InnerBencodeRef<'a>,
}

/// Model of a decoded value.
pub(crate) open spec fn ref_view(b: BencodeRef) -> RefView
    decreases b,
{
    match b.inner {
        InnerBencodeRef::Int(n, buf) => RefView::Int(n as int, buf@),
        InnerBencodeRef::Bytes(bytes, buf) => RefView::Bytes(bytes@, buf@),
        InnerBencodeRef::List(items, buf) => RefView::List(
            Seq::new(
                items@.len(),
                |i: int|
                    if 0 <= i < items@.len() {
                        ref_view(items@[i])
                    } else {
                        RefView::Int(0, Seq::empty())
                    },
            ),
            buf@,
        ),
        InnerBencodeRef::Dict(d, buf) => RefView::Dict(
            Seq::new(
                d.entries@.len(),
                |i: int|
                    if 0 <= i < d.entries@.len() {
                        (d.entries@[i].0@, ref_view(d.entries@[i].1))
                    } else {
                        (Seq::empty(), RefView::Int(0, Seq::empty()))
                    },
            ),
            buf@,
        ),
    }
}

impl<'a> View for BencodeRef<'a> {
    type V = RefView;

    closed spec fn view(&self) -> RefView {
        ref_view(*self)
    }
}

/// Inside the crate, the model of a decoded value is `ref_view`.
pub(crate) broadcast proof fn lemma_ref_view(b: BencodeRef)
    ensures
        #[trigger] b@ == ref_view(b),
{
}

/// The model of a list or dictionary node is made of the models of its contents.
pub(crate) broadcast proof fn lemma_ref_shape(b: BencodeRef)
    ensures
        #[trigger] ref_view(b) == match b.inner {
            InnerBencodeRef::List(l, buf) => RefView::List(
                Seq::new(l@.len(), |i: int| ref_view(l@[i])),
                buf@,
            ),
            InnerBencodeRef::Dict(d, buf) => RefView::Dict(
                Seq::new(d.kv().len(), |i: int| (d.kv()[i].0, ref_view(d.kv()[i].1))),
                buf@,
            ),
            _ => ref_view(b),
        },
{
    match b.inner {
        InnerBencodeRef::List(l, buf) => {
            assert(ref_view(b)->List_0 =~= Seq::new(l@.len(), |i: int| ref_view(l@[i])));
        },
        InnerBencodeRef::Dict(d, buf) => {
            d.lemma_kv();
            assert(ref_view(b)->Dict_0 =~= Seq::new(d.kv().len(), |i: int| (d.kv()[i].0, ref_view(d.kv()[i].1))));
        },
        _ => {},
    }
}

} // verus!
