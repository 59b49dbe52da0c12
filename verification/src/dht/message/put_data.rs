use vstd::prelude::*;

verus! {

/// A request storing data in the DHT; only its transaction id is read so far.
#[derive(Copy, Clone, PartialEq, Eq, Hash, Debug)]
pub struct PutDataRequest<'a> {
    trans_id: &'a [u8],
}

impl<'a> PutDataRequest<'a> {
    /// The transaction id.
    pub closed spec fn trans_id_view(&self) -> Seq<u8> {
        self.trans_id@
    }

    /// The transaction id.
    pub fn transaction_id(&self) -> (r: &'a [u8])
        ensures
            r@ == self.trans_id_view(),
    {
        self.trans_id
    }
}

} // verus!
