//! The compound key builder.
//!
//! A compound key is a sequence of encoded field values joined by the
//! separator `0x00`. To include in a range every key that continues a prefix
//! at the separator, the upper bound of the range is the prefix followed by
//! `0x01`: `0x00` is the smallest byte and `0x01` the next.

use vstd::prelude::*;
use crate::order::{lex_le, lex_lt, lex_lt_at};

verus! {

/// The byte that separates two fields of a compound key.
pub const SEPARATOR: u8 = 0x00;

/// The byte that, appended to a prefix, bounds from above every key that
/// continues the prefix at a separator.
pub const UPPER_INCLUSIVE: u8 = 0x01;

/// `key` followed by a separator, where `key` is not empty, and then `slice`.
pub open spec fn joined(key: Seq<u8>, slice: Seq<u8>) -> Seq<u8> {
    if key.len() > 0 {
        key.push(SEPARATOR) + slice
    } else {
        slice
    }
}

/// A vector of bytes that holds a lexicographically sortable compound key.
#[derive(Clone)]
pub struct LexicographicKey {
    pub bytes: Vec<u8>,
}

impl View for LexicographicKey {
    type V = Seq<u8>;

    open spec fn view(&self) -> Seq<u8> {
        self.bytes@
    }
}

impl Default for LexicographicKey {
    fn default() -> (key: Self)
        ensures
            key@ == Seq::<u8>::empty(),
    {
        LexicographicKey { bytes: Vec::new() }
    }
}

impl LexicographicKey {
    /// Append the encoding of one more field, after a separator where the
    /// key already holds a field.
    pub fn append_key_slice(&mut self, slice: &[u8])
        ensures
            final(self)@ == joined(old(self)@, slice@),
    {
        if !self.bytes.is_empty() {
            self.append_separator();
        }
        let ghost before = self.bytes@;
        self.bytes.extend_from_slice(slice);
        assert(self.bytes@ =~= before + slice@);
        assert(old(self)@.len() == 0 ==> before + slice@ =~= slice@);
    }

    /// Append `0x01`, so that the key bounds from above every key that
    /// continues it at a separator.
    pub fn append_upper_inclusive_byte(&mut self)
        ensures
            final(self)@ == old(self)@.push(UPPER_INCLUSIVE),
    {
        self.bytes.push(UPPER_INCLUSIVE);
    }

    /// Append the separator `0x00`.
    pub fn append_separator(&mut self)
        ensures
            final(self)@ == old(self)@.push(SEPARATOR),
    {
        self.bytes.push(SEPARATOR);
    }

    /// Whether the key holds no byte.
    pub fn is_empty(&self) -> (r: bool)
        ensures
            r == (self@.len() == 0),
    {
        self.bytes.is_empty()
    }

    /// A copy of the bytes of the key.
    pub fn to_vec(&self) -> (bytes: Vec<u8>)
        ensures
            bytes@ == self@,
    {
        vstd::slice::slice_to_vec(self.bytes.as_slice())
    }

    /// Hand the bytes out and leave the key empty.
    pub fn take(&mut self) -> (bytes: Vec<u8>)
        ensures
            bytes@ == old(self)@,
            final(self)@ == Seq::<u8>::empty(),
    {
        let mut bytes: Vec<u8> = Vec::new();
        std::mem::swap(&mut self.bytes, &mut bytes);
        bytes
    }
}

/// A prefix sorts strictly before its upper-inclusive bound.
pub proof fn lemma_prefix_below_upper(prefix: Seq<u8>)
    ensures
        lex_lt(prefix, prefix.push(UPPER_INCLUSIVE)),
{
    assert(lex_lt_at(prefix, prefix.push(UPPER_INCLUSIVE), prefix.len() as int));
}

/// Every key that continues `prefix` at a separator sorts strictly before
/// the upper-inclusive bound of `prefix`.
pub proof fn lemma_extension_below_upper(prefix: Seq<u8>, rest: Seq<u8>)
    ensures
        lex_lt(prefix.push(SEPARATOR) + rest, prefix.push(UPPER_INCLUSIVE)),
{
    assert(lex_lt_at(
        prefix.push(SEPARATOR) + rest,
        prefix.push(UPPER_INCLUSIVE),
        prefix.len() as int,
    ));
}

/// A key that continues `prefix` with a byte other than the separator does
/// not sort before the upper-inclusive bound of `prefix`; it sorts strictly
/// after it unless it is that bound.
pub proof fn lemma_upper_below_other(prefix: Seq<u8>, byte: u8, rest: Seq<u8>)
    requires
        byte >= UPPER_INCLUSIVE,
    ensures
        lex_le(prefix.push(UPPER_INCLUSIVE), prefix.push(byte) + rest),
        (byte > UPPER_INCLUSIVE || rest.len() > 0) ==> lex_lt(
            prefix.push(UPPER_INCLUSIVE),
            prefix.push(byte) + rest,
        ),
{
    let upper = prefix.push(UPPER_INCLUSIVE);
    let other = prefix.push(byte) + rest;
    let n = prefix.len() as int;
    if byte > UPPER_INCLUSIVE {
        assert(lex_lt_at(upper, other, n));
    } else if rest.len() > 0 {
        assert(lex_lt_at(upper, other, n + 1));
    } else {
        assert(upper =~= other);
    }
}

} // verus!
