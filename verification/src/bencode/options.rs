use vstd::prelude::*;

use crate::bencode::spec::DecodeOpts;

verus! {

/// Maximum nesting depth allowed by the default options.
pub const DEFAULT_MAX_RECURSION: usize = 50;
/// Whether the default options reject dictionary keys out of order.
pub const DEFAULT_CHECK_KEY_SORT: bool = false;
/// Whether the default options require the value to take up the whole input.
pub const DEFAULT_ENFORCE_FULL_DECODE: bool = true;

/// Options that change how bytes are decoded.
#[derive(Clone, Copy, Debug, PartialEq, Eq)]
pub struct BDecodeOpt {
    max_recursion: usize,
    check_key_sort: bool,
    enforce_full_decode: bool,
}

impl View for BDecodeOpt {
    type V = DecodeOpts;

    closed spec fn view(&self) -> DecodeOpts {
        DecodeOpts {
            max_recursion: self.max_recursion as int,
            check_key_sort: self.check_key_sort,
            enforce_full_decode: self.enforce_full_decode,
        }
    }
}

impl BDecodeOpt {
    /// Creates a new set of options.
    pub fn new(max_recursion: usize, check_key_sort: bool, enforce_full_decode: bool) -> (o: BDecodeOpt)
        ensures
            o@ == (DecodeOpts {
                max_recursion: max_recursion as int,
                check_key_sort,
                enforce_full_decode,
            }),
    {
        BDecodeOpt { max_recursion, check_key_sort, enforce_full_decode }
    }

    /// Deepest nesting allowed while decoding.
    pub fn max_recursion(&self) -> (r: usize)
        ensures
            r as int == self@.max_recursion,
    {
        self.max_recursion
    }

    /// Whether an error is raised for dictionary keys out of order.
    pub fn check_key_sort(&self) -> (r: bool)
        ensures
            r == self@.check_key_sort,
    {
        self.check_key_sort
    }

    /// Whether the decoded value must take up all of the input.
    pub fn enforce_full_decode(&self) -> (r: bool)
        ensures
            r == self@.enforce_full_decode,
    {
        self.enforce_full_decode
    }
}

impl Default for BDecodeOpt {
    fn default() -> (o: BDecodeOpt)
        ensures
            o@ == (DecodeOpts {
                max_recursion: DEFAULT_MAX_RECURSION as int,
                check_key_sort: DEFAULT_CHECK_KEY_SORT,
                enforce_full_decode: DEFAULT_ENFORCE_FULL_DECODE,
            }),
    {
        BDecodeOpt::new(DEFAULT_MAX_RECURSION, DEFAULT_CHECK_KEY_SORT, DEFAULT_ENFORCE_FULL_DECODE)
    }
}

} // verus!
