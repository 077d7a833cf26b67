//! Owned byte strings: the keys and values of journaled tables.

use vstd::prelude::*;
use vstd::std_specs::cmp::PartialEqSpecImpl;
use vstd::std_specs::convert::FromSpecImpl;
use vstd::string::StrSliceExecFns;
use crate::order::bytes_eq;

verus! {

/// An owned byte string.
#[derive(Debug, Clone)]
pub struct Bytes {
    bytes: Vec<u8>,
}

impl View for Bytes {
    type V = Seq<u8>;

    closed spec fn view(&self) -> Seq<u8> {
        self.bytes@
    }
}

impl Default for Bytes {
    fn default() -> (b: Self)
        ensures
            b@ == Seq::<u8>::empty(),
    {
        Bytes { bytes: Vec::new() }
    }
}

impl PartialEq for Bytes {
    fn eq(&self, other: &Self) -> (r: bool) {
        bytes_eq(self.bytes.as_slice(), other.bytes.as_slice())
    }
}

impl PartialEqSpecImpl for Bytes {
    open spec fn obeys_eq_spec() -> bool {
        true
    }

    open spec fn eq_spec(&self, other: &Self) -> bool {
        self@ == other@
    }
}

impl FromSpecImpl<Vec<u8>> for Bytes {
    open spec fn obeys_from_spec() -> bool {
        true
    }

    closed spec fn from_spec(value: Vec<u8>) -> Self {
        Bytes { bytes: value }
    }
}

impl From<Vec<u8>> for Bytes {
    fn from(value: Vec<u8>) -> (b: Self) {
        Bytes { bytes: value }
    }
}

impl Bytes {
    /// The byte string that holds the bytes of `value`.
    pub fn new(value: Vec<u8>) -> (b: Self)
        ensures
            b@ == value@,
    {
        Bytes { bytes: value }
    }

    /// The byte string that holds a copy of `value`.
    pub fn from_slice(value: &[u8]) -> (b: Self)
        ensures
            b@ == value@,
    {
        Bytes { bytes: vstd::slice::slice_to_vec(value) }
    }

    /// The UTF-8 bytes of `value`.
    pub fn from_str(value: &str) -> (b: Self)
        ensures
            b@ == vstd::utf8::encode_utf8(value@),
    {
        Bytes { bytes: value.as_bytes_vec() }
    }

    /// The eight little-endian bytes of `value`.
    pub fn from_u64(value: u64) -> (b: Self)
        ensures
            b@ == vstd::bytes::spec_u64_to_le_bytes(value),
    {
        Bytes { bytes: vstd::bytes::u64_to_le_bytes(value) }
    }

    /// The number of bytes.
    pub fn len(&self) -> (n: usize)
        ensures
            n == self@.len(),
    {
        self.bytes.len()
    }

    /// A copy of the bytes.
    pub fn to_vec(&self) -> (bytes: Vec<u8>)
        ensures
            bytes@ == self@,
    {
        vstd::slice::slice_to_vec(self.bytes.as_slice())
    }

    /// The bytes.
    pub fn as_slice(&self) -> (bytes: &[u8])
        ensures
            bytes@ == self@,
    {
        self.bytes.as_slice()
    }

    /// The bytes, handed out.
    pub fn into_vec(self) -> (bytes: Vec<u8>)
        ensures
            bytes@ == self@,
    {
        self.bytes
    }

    /// A copy of the byte string.
    pub fn copy(&self) -> (b: Self)
        ensures
            b@ == self@,
    {
        Bytes { bytes: self.to_vec() }
    }
}

} // verus!
