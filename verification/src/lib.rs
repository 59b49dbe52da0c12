//! Bencode encoding and decoding together with the pure decision logic of a
//! mainline DHT node, with contracts proved by Verus.
use vstd::prelude::*;

pub mod bencode;
pub mod dht;

verus! {

} // verus!
