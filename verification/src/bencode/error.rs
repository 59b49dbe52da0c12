use vstd::prelude::*;

use crate::bencode::spec::ParseFailure;

verus! {

/// Why decoding failed, with the position in the input it was found at.
#[derive(Debug, Clone, PartialEq, Eq)]
pub enum BencodeParseError {
    /// The input ended where more bytes were needed.
    BytesEmpty { pos: usize },
    /// A byte that cannot start a value.
    InvalidByte { pos: usize },
    /// An integer with no delimiter after it.
    InvalidIntNoDelimiter { pos: usize },
    /// An integer written as negative zero.
    InvalidIntNegativeZero { pos: usize },
    /// An integer written with leading zeros.
    InvalidIntZeroPadding { pos: usize },
    /// An integer that is not a base-ten `i64`.
    InvalidIntParseError { pos: usize },
    /// A dictionary key smaller than a key before it.
    InvalidKeyOrdering { pos: usize, key: Vec<u8> },
    /// A dictionary key that appears twice.
    InvalidKeyDuplicates { pos: usize, key: Vec<u8> },
    /// A byte string with a negative length.
    InvalidLengthNegative { pos: usize },
    /// A byte string longer than the rest of the input.
    InvalidLengthOverflow { pos: usize },
    /// Values nested deeper than the decoding options allow.
    InvalidRecursionExceeded { pos: usize, max: usize },
}

impl View for BencodeParseError {
    type V = ParseFailure;

    open spec fn view(&self) -> ParseFailure {
        match self {
            BencodeParseError::BytesEmpty { pos } => ParseFailure::BytesEmpty(*pos as int),
            BencodeParseError::InvalidByte { pos } => ParseFailure::InvalidByte(*pos as int),
            BencodeParseError::InvalidIntNoDelimiter { pos } => ParseFailure::InvalidIntNoDelimiter(*pos as int),
            BencodeParseError::InvalidIntNegativeZero { pos } => ParseFailure::InvalidIntNegativeZero(*pos as int),
            BencodeParseError::InvalidIntZeroPadding { pos } => ParseFailure::InvalidIntZeroPadding(*pos as int),
            BencodeParseError::InvalidIntParseError { pos } => ParseFailure::InvalidIntParseError(*pos as int),
            BencodeParseError::InvalidKeyOrdering { pos, key } => ParseFailure::InvalidKeyOrdering(*pos as int, key@),
            BencodeParseError::InvalidKeyDuplicates { pos, key } => ParseFailure::InvalidKeyDuplicates(*pos as int, key@),
            BencodeParseError::InvalidLengthNegative { pos } => ParseFailure::InvalidLengthNegative(*pos as int),
            BencodeParseError::InvalidLengthOverflow { pos } => ParseFailure::InvalidLengthOverflow(*pos as int),
            BencodeParseError::InvalidRecursionExceeded { pos, max } => ParseFailure::InvalidRecursionExceeded(
                *pos as int,
                *max as int,
            ),
        }
    }
}

/// Model of a conversion failure: the key, and for a wrong type the type expected.
pub enum ConvertFailure {
    /// No entry under the key.
    MissingKey(Seq<u8>),
    /// The value under the key is not of the expected type.
    WrongType(Seq<u8>, Seq<char>),
}

/// Why a bencode value could not be read as the type a caller expected.
#[derive(Debug, Clone, PartialEq, Eq)]
pub enum BencodeConvertError {
    /// A dictionary has no entry under the key.
    MissingKey { key: Vec<u8> },
    /// The value under the key has another type than the one expected.
    WrongType { key: Vec<u8>, expected_type: String },
}

impl View for BencodeConvertError {
    type V = ConvertFailure;

    open spec fn view(&self) -> ConvertFailure {
        match self {
            BencodeConvertError::MissingKey { key } => ConvertFailure::MissingKey(key@),
            BencodeConvertError::WrongType { key, expected_type } => ConvertFailure::WrongType(key@, expected_type@),
        }
    }
}

} // verus!
