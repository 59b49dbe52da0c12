use vstd::prelude::*;

pub mod spec;
pub mod order;
pub mod dict;
pub mod error;
pub mod options;
pub mod reference;
pub mod decode;
pub mod encode;
pub mod value;
pub mod mutable;
pub mod refapi;
pub mod convert;
pub mod laws;
pub mod list;

verus! {

/// Byte that ends an integer, a list or a dictionary.
pub const BEN_END: u8 = 101;
/// Byte that starts a dictionary.
pub const DICT_START: u8 = 100;
/// Byte that starts a list.
pub const LIST_START: u8 = 108;
/// Byte that starts an integer.
pub const INT_START: u8 = 105;
/// Lowest byte that can start the length of a byte string.
pub const BYTE_LEN_LOW: u8 = 48;
/// Highest byte that can start the length of a byte string.
pub const BYTE_LEN_HIGH: u8 = 57;
/// Byte that ends the length of a byte string.
pub const BYTE_LEN_END: u8 = 58;

} // verus!
