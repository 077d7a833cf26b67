//! Ranges and query parameters.
//!
//! A parameter constrains one field of a document. It exists in a typed form,
//! over the values of the field, and in an erased form, over their encodings.

use vstd::prelude::*;
use vstd::std_specs::cmp::PartialEqSpec;
use vstd::std_specs::cmp::PartialOrdIs;
use vstd::std_specs::cmp::PartialOrdSpec;
use vstd::std_specs::convert::FromSpecImpl;
use std::ops::Bound;
use std::ops::Range;
use std::ops::RangeFrom;
use std::ops::RangeInclusive;
use std::ops::RangeTo;
use std::ops::RangeToInclusive;
use crate::lexicographic::SerializeLexicographic;
use crate::order::{
    bytes_eq, bytes_le, bytes_lt, lemma_lex_asymmetric, lemma_lex_total, lex_le, lex_lt,
};

verus! {

/// `std::ops::Bound`: an endpoint of a range, with its three variants.
#[verifier::external_type_specification]
#[verifier::reject_recursive_types(T)]
pub struct ExBound<T>(Bound<T>);

/// `std::ops::RangeFrom`, the range `start..`, with its one field.
#[verifier::external_type_specification]
#[verifier::reject_recursive_types(Idx)]
pub struct ExRangeFrom<Idx>(RangeFrom<Idx>);

/// `std::ops::RangeTo`, the range `..end`, with its one field.
#[verifier::external_type_specification]
#[verifier::reject_recursive_types(Idx)]
pub struct ExRangeTo<Idx>(RangeTo<Idx>);

/// `std::ops::RangeToInclusive`, the range `..=end`, with its one field.
#[verifier::external_type_specification]
#[verifier::reject_recursive_types(Idx)]
pub struct ExRangeToInclusive<Idx>(RangeToInclusive<Idx>);

/// A range with any combination of bounds: its start and its end.
#[derive(Debug)]
#[verifier::reject_recursive_types(T)]
pub struct GeneralRange<T>(pub Bound<T>, pub Bound<T>);

/// A range of byte strings, as contracts see it.
pub struct ByteRange {
    pub start: Bound<Seq<u8>>,
    pub end: Bound<Seq<u8>>,
}

impl ByteRange {
    /// Whether `key` lies at or after the start of the range.
    pub open spec fn starts_before(self, key: Seq<u8>) -> bool {
        match self.start {
            Bound::Included(s) => lex_le(s, key),
            Bound::Excluded(s) => lex_lt(s, key),
            Bound::Unbounded => true,
        }
    }

    /// Whether `key` lies at or before the end of the range.
    pub open spec fn ends_after(self, key: Seq<u8>) -> bool {
        match self.end {
            Bound::Included(e) => lex_le(key, e),
            Bound::Excluded(e) => lex_lt(key, e),
            Bound::Unbounded => true,
        }
    }

    /// Whether the range contains `key`.
    pub open spec fn contains(self, key: Seq<u8>) -> bool {
        self.starts_before(key) && self.ends_after(key)
    }

    /// The range without bounds.
    pub open spec fn full() -> ByteRange {
        ByteRange { start: Bound::Unbounded, end: Bound::Unbounded }
    }
}

/// The bytes of a bound.
pub open spec fn bound_bytes(b: Bound<Vec<u8>>) -> Bound<Seq<u8>> {
    match b {
        Bound::Included(v) => Bound::Included(v@),
        Bound::Excluded(v) => Bound::Excluded(v@),
        Bound::Unbounded => Bound::Unbounded,
    }
}

/// The bytes of a borrowed bound.
pub open spec fn slice_bound_bytes(b: Bound<&[u8]>) -> Bound<Seq<u8>> {
    match b {
        Bound::Included(v) => Bound::Included(v@),
        Bound::Excluded(v) => Bound::Excluded(v@),
        Bound::Unbounded => Bound::Unbounded,
    }
}

/// A bound on a borrowed value.
pub open spec fn borrowed<T>(b: &Bound<T>) -> Bound<&T> {
    match b {
        Bound::Included(v) => Bound::Included(v),
        Bound::Excluded(v) => Bound::Excluded(v),
        Bound::Unbounded => Bound::Unbounded,
    }
}

impl View for GeneralRange<Vec<u8>> {
    type V = ByteRange;

    open spec fn view(&self) -> ByteRange {
        ByteRange { start: bound_bytes(self.0), end: bound_bytes(self.1) }
    }
}

impl<'a> View for GeneralRange<&'a [u8]> {
    type V = ByteRange;

    open spec fn view(&self) -> ByteRange {
        ByteRange { start: slice_bound_bytes(self.0), end: slice_bound_bytes(self.1) }
    }
}

impl<T> GeneralRange<T> {
    /// The start of the range.
    pub fn start_bound(&self) -> (b: Bound<&T>)
        ensures
            b == borrowed(&self.0),
    {
        match &self.0 {
            Bound::Included(v) => Bound::Included(v),
            Bound::Excluded(v) => Bound::Excluded(v),
            Bound::Unbounded => Bound::Unbounded,
        }
    }

    /// The end of the range.
    pub fn end_bound(&self) -> (b: Bound<&T>)
        ensures
            b == borrowed(&self.1),
    {
        match &self.1 {
            Bound::Included(v) => Bound::Included(v),
            Bound::Excluded(v) => Bound::Excluded(v),
            Bound::Unbounded => Bound::Unbounded,
        }
    }
}

impl<T: PartialOrd> GeneralRange<T> {
    /// Whether the range contains `item`, by the order of `T`.
    pub open spec fn contains_spec(&self, item: &T) -> bool {
        &&& match self.0 {
            Bound::Included(s) => s.is_le(item),
            Bound::Excluded(s) => s.is_lt(item),
            Bound::Unbounded => true,
        }
        &&& match self.1 {
            Bound::Included(e) => item.is_le(&e),
            Bound::Excluded(e) => item.is_lt(&e),
            Bound::Unbounded => true,
        }
    }

    /// Whether the range contains `item`.
    pub fn contains(&self, item: &T) -> (r: bool)
        ensures
            T::obeys_partial_cmp_spec() ==> r == self.contains_spec(item),
    {
        let after_start = match &self.0 {
            Bound::Included(s) => *s <= *item,
            Bound::Excluded(s) => *s < *item,
            Bound::Unbounded => true,
        };
        let before_end = match &self.1 {
            Bound::Included(e) => *item <= *e,
            Bound::Excluded(e) => *item < *e,
            Bound::Unbounded => true,
        };
        after_start && before_end
    }
}

impl GeneralRange<Vec<u8>> {
    /// The same range, over borrowed bytes.
    pub fn as_slice<'a>(&'a self) -> (r: GeneralRange<&'a [u8]>)
        ensures
            r@ == self@,
    {
        let start: Bound<&'a [u8]> = match &self.0 {
            Bound::Included(v) => Bound::Included(v.as_slice()),
            Bound::Excluded(v) => Bound::Excluded(v.as_slice()),
            Bound::Unbounded => Bound::Unbounded,
        };
        let end: Bound<&'a [u8]> = match &self.1 {
            Bound::Included(v) => Bound::Included(v.as_slice()),
            Bound::Excluded(v) => Bound::Excluded(v.as_slice()),
            Bound::Unbounded => Bound::Unbounded,
        };
        GeneralRange(start, end)
    }

    /// Whether the range contains `key`, in byte-lexicographic order.
    pub fn contains_bytes(&self, key: &[u8]) -> (r: bool)
        ensures
            r == self@.contains(key@),
    {
        let after_start = match &self.0 {
            Bound::Included(s) => bytes_le(s.as_slice(), key),
            Bound::Excluded(s) => bytes_lt(s.as_slice(), key),
            Bound::Unbounded => true,
        };
        let before_end = match &self.1 {
            Bound::Included(e) => bytes_le(key, e.as_slice()),
            Bound::Excluded(e) => bytes_lt(key, e.as_slice()),
            Bound::Unbounded => true,
        };
        after_start && before_end
    }
}

impl<T> FromSpecImpl<Range<T>> for GeneralRange<T> {
    open spec fn obeys_from_spec() -> bool {
        true
    }

    open spec fn from_spec(value: Range<T>) -> Self {
        GeneralRange(Bound::Included(value.start), Bound::Excluded(value.end))
    }
}

impl<T> From<Range<T>> for GeneralRange<T> {
    fn from(value: Range<T>) -> (r: Self) {
        GeneralRange(Bound::Included(value.start), Bound::Excluded(value.end))
    }
}

impl<T> FromSpecImpl<RangeFrom<T>> for GeneralRange<T> {
    open spec fn obeys_from_spec() -> bool {
        true
    }

    open spec fn from_spec(value: RangeFrom<T>) -> Self {
        GeneralRange(Bound::Included(value.start), Bound::Unbounded)
    }
}

impl<T> From<RangeFrom<T>> for GeneralRange<T> {
    fn from(value: RangeFrom<T>) -> (r: Self) {
        GeneralRange(Bound::Included(value.start), Bound::Unbounded)
    }
}

impl<T> FromSpecImpl<RangeTo<T>> for GeneralRange<T> {
    open spec fn obeys_from_spec() -> bool {
        true
    }

    open spec fn from_spec(value: RangeTo<T>) -> Self {
        GeneralRange(Bound::Unbounded, Bound::Excluded(value.end))
    }
}

impl<T> From<RangeTo<T>> for GeneralRange<T> {
    fn from(value: RangeTo<T>) -> (r: Self) {
        GeneralRange(Bound::Unbounded, Bound::Excluded(value.end))
    }
}

impl<T> FromSpecImpl<RangeToInclusive<T>> for GeneralRange<T> {
    open spec fn obeys_from_spec() -> bool {
        true
    }

    open spec fn from_spec(value: RangeToInclusive<T>) -> Self {
        GeneralRange(Bound::Unbounded, Bound::Included(value.end))
    }
}

impl<T> From<RangeToInclusive<T>> for GeneralRange<T> {
    fn from(value: RangeToInclusive<T>) -> (r: Self) {
        GeneralRange(Bound::Unbounded, Bound::Included(value.end))
    }
}

/// `RangeInclusive::into_inner`: the lower and the upper end of the range.
pub assume_specification<Idx>[ RangeInclusive::<Idx>::into_inner ](r: RangeInclusive<Idx>) -> (ends: (
    Idx,
    Idx,
))
    ensures
        ends.0 == r@.start,
        ends.1 == r@.end,
;

/// `RangeBounds::end_bound` of a `RangeInclusive`: the upper end is
/// excluded once the range has been iterated to its end, and included
/// before.
#[verifier::external_body]
fn end_is_excluded<T>(r: &RangeInclusive<T>) -> (excluded: bool)
    ensures
        excluded == r@.exhausted,
{
    matches!(std::ops::RangeBounds::end_bound(r), Bound::Excluded(_))
}

impl<T> FromSpecImpl<RangeInclusive<T>> for GeneralRange<T> {
    open spec fn obeys_from_spec() -> bool {
        true
    }

    open spec fn from_spec(value: RangeInclusive<T>) -> Self {
        GeneralRange(
            Bound::Included(value@.start),
            if value@.exhausted {
                Bound::Excluded(value@.end)
            } else {
                Bound::Included(value@.end)
            },
        )
    }
}

impl<T> From<RangeInclusive<T>> for GeneralRange<T> {
    fn from(value: RangeInclusive<T>) -> (r: Self) {
        let excluded = end_is_excluded(&value);
        let (start, end) = value.into_inner();
        if excluded {
            GeneralRange(Bound::Included(start), Bound::Excluded(end))
        } else {
            GeneralRange(Bound::Included(start), Bound::Included(end))
        }
    }
}

/// A constraint on one field, over the values of the field.
#[derive(Debug)]
#[verifier::reject_recursive_types(T)]
pub enum ParamTyped<T> {
    Eq(T),
    Neq(T),
    Range(GeneralRange<T>),
    /// Matches the values that occur in the list.
    In(Vec<T>),
    /// Matches the values that do not occur in the list.
    Nin(Vec<T>),
}

/// Whether some element of `list` equals `item`, by the equality of `T`.
pub open spec fn occurs<T: PartialEq>(list: Seq<T>, item: &T) -> bool {
    exists|i: int| 0 <= i < list.len() && (#[trigger] list[i]).eq_spec(item)
}

/// Whether some element of `list` equals `item`.
fn list_contains<T: PartialEq>(list: &Vec<T>, item: &T) -> (r: bool)
    ensures
        T::obeys_eq_spec() ==> r == occurs(list@, item),
{
    let mut i: usize = 0;
    while i < list.len()
        invariant
            T::obeys_eq_spec() ==> forall|j: int| 0 <= j < i ==> !(#[trigger] list@[j]).eq_spec(item),
        decreases list.len() - i,
    {
        if list[i] == *item {
            return true;
        }
        i += 1;
    }
    false
}

impl<T: PartialEq + PartialOrd> ParamTyped<T> {
    /// Whether `other` meets the constraint, by the equality and the order
    /// of `T`.
    pub open spec fn test_spec(&self, other: &T) -> bool {
        match self {
            ParamTyped::Eq(v) => v.eq_spec(other),
            ParamTyped::Neq(v) => !v.eq_spec(other),
            ParamTyped::Range(r) => r.contains_spec(other),
            ParamTyped::In(list) => occurs(list@, other),
            ParamTyped::Nin(list) => !occurs(list@, other),
        }
    }

    /// Whether `other` meets the constraint.
    pub fn test(&self, other: &T) -> (r: bool)
        ensures
            T::obeys_eq_spec() && T::obeys_partial_cmp_spec() ==> r == self.test_spec(other),
    {
        match self {
            ParamTyped::Eq(v) => *v == *other,
            ParamTyped::Range(r) => r.contains(other),
            ParamTyped::Neq(v) => *v != *other,
            ParamTyped::In(list) => list_contains(list, other),
            ParamTyped::Nin(list) => !list_contains(list, other),
        }
    }

    /// The parameter `some`, with the type of its values fixed to that of
    /// the field `_v`.
    pub fn typed(_v: &T, some: Self) -> (r: Self)
        ensures
            r == some,
    {
        some
    }
}

/// A constraint on one field, over the encodings of its values.
#[derive(Debug)]
pub enum Param {
    Eq(Vec<u8>),
    Neq(Vec<u8>),
    Range(GeneralRange<Vec<u8>>),
    /// Matches the encodings that occur in the list.
    In(Vec<Vec<u8>>),
    /// Matches the encodings that do not occur in the list.
    Nin(Vec<Vec<u8>>),
}

/// Whether some element of `list` holds the bytes `item`.
pub open spec fn occurs_bytes(list: Seq<Vec<u8>>, item: Seq<u8>) -> bool {
    exists|i: int| 0 <= i < list.len() && (#[trigger] list[i])@ == item
}

/// Whether some element of `list` holds the bytes `item`.
fn list_contains_bytes(list: &Vec<Vec<u8>>, item: &[u8]) -> (r: bool)
    ensures
        r == occurs_bytes(list@, item@),
{
    let mut i: usize = 0;
    while i < list.len()
        invariant
            forall|j: int| 0 <= j < i ==> (#[trigger] list@[j])@ != item@,
        decreases list.len() - i,
    {
        if bytes_eq(list[i].as_slice(), item) {
            return true;
        }
        i += 1;
    }
    false
}

/// The encodings of the elements of `list`, in order.
pub open spec fn encodes<T: SerializeLexicographic>(list: Seq<T>, bytes: Seq<Vec<u8>>) -> bool {
    &&& bytes.len() == list.len()
    &&& forall|i: int| 0 <= i < list.len() ==> (#[trigger] bytes[i])@ == list[i].lex_bytes()
}

/// The encoding of a bound.
pub open spec fn encodes_bound<T: SerializeLexicographic>(
    b: Bound<T>,
    bytes: Bound<Vec<u8>>,
) -> bool {
    match b {
        Bound::Included(v) => bytes matches Bound::Included(e) && e@ == v.lex_bytes(),
        Bound::Excluded(v) => bytes matches Bound::Excluded(e) && e@ == v.lex_bytes(),
        Bound::Unbounded => bytes is Unbounded,
    }
}

/// Encode every element of `list`.
fn encode_all<T: SerializeLexicographic>(list: &Vec<T>) -> (bytes: Vec<Vec<u8>>)
    ensures
        encodes(list@, bytes@),
{
    let mut bytes: Vec<Vec<u8>> = Vec::new();
    let mut i: usize = 0;
    while i < list.len()
        invariant
            i <= list.len(),
            bytes@.len() == i,
            forall|j: int| 0 <= j < i ==> (#[trigger] bytes@[j])@ == list@[j].lex_bytes(),
        decreases list.len() - i,
    {
        bytes.push(list[i].serialize_lex());
        i += 1;
    }
    bytes
}

/// Encode the value of a bound.
fn encode_bound<T: SerializeLexicographic>(b: &Bound<T>) -> (bytes: Bound<Vec<u8>>)
    ensures
        encodes_bound(*b, bytes),
{
    match b {
        Bound::Included(v) => Bound::Included(v.serialize_lex()),
        Bound::Excluded(v) => Bound::Excluded(v.serialize_lex()),
        Bound::Unbounded => Bound::Unbounded,
    }
}

impl Param {
    /// The constraint that the field equals `val`.
    pub fn eq<T: SerializeLexicographic>(val: T) -> (p: Self)
        ensures
            p matches Param::Eq(bytes) && bytes@ == val.lex_bytes(),
    {
        Param::Eq(val.serialize_lex())
    }

    /// The constraint that the field differs from `val`.
    pub fn neq<T: SerializeLexicographic>(val: T) -> (p: Self)
        ensures
            p matches Param::Neq(bytes) && bytes@ == val.lex_bytes(),
    {
        Param::Neq(val.serialize_lex())
    }

    /// The constraint that the field lies in the range `val`.
    pub fn range<T: SerializeLexicographic>(val: GeneralRange<T>) -> (p: Self)
        ensures
            p matches Param::Range(r) && encodes_bound(val.0, r.0) && encodes_bound(val.1, r.1),
    {
        Param::Range(GeneralRange(encode_bound(&val.0), encode_bound(&val.1)))
    }

    /// The constraint that the field equals one of the values in `val`.
    pub fn inn<T: SerializeLexicographic>(val: Vec<T>) -> (p: Self)
        ensures
            p matches Param::In(bytes) && encodes(val@, bytes@),
    {
        Param::In(encode_all(&val))
    }

    /// The constraint that the field equals none of the values in `val`.
    pub fn nin<T: SerializeLexicographic>(val: Vec<T>) -> (p: Self)
        ensures
            p matches Param::Nin(bytes) && encodes(val@, bytes@),
    {
        Param::Nin(encode_all(&val))
    }

    /// Whether the encoding `other` meets the constraint.
    pub open spec fn test_spec(&self, other: Seq<u8>) -> bool {
        match self {
            Param::Eq(v) => v@ == other,
            Param::Neq(v) => v@ != other,
            Param::Range(r) => r@.contains(other),
            Param::In(list) => occurs_bytes(list@, other),
            Param::Nin(list) => !occurs_bytes(list@, other),
        }
    }

    /// Whether the encoding `other` meets the constraint.
    pub fn test(&self, other: &[u8]) -> (r: bool)
        ensures
            r == self.test_spec(other@),
    {
        match self {
            Param::Eq(v) => bytes_eq(v.as_slice(), other),
            Param::Range(range) => range.contains_bytes(other),
            Param::Neq(v) => !bytes_eq(v.as_slice(), other),
            Param::In(list) => list_contains_bytes(list, other),
            Param::Nin(list) => !list_contains_bytes(list, other),
        }
    }
}

impl<T: SerializeLexicographic> ParamTyped<T> {
    /// Whether `p` is this constraint with every value encoded.
    pub open spec fn erases_to(&self, p: &Param) -> bool {
        match self {
            ParamTyped::Eq(v) => p matches Param::Eq(bytes) && bytes@ == v.lex_bytes(),
            ParamTyped::Neq(v) => p matches Param::Neq(bytes) && bytes@ == v.lex_bytes(),
            ParamTyped::Range(r) => p matches Param::Range(e) && encodes_bound(r.0, e.0)
                && encodes_bound(r.1, e.1),
            ParamTyped::In(list) => p matches Param::In(bytes) && encodes(list@, bytes@),
            ParamTyped::Nin(list) => p matches Param::Nin(bytes) && encodes(list@, bytes@),
        }
    }

    /// The constraint with every value encoded.
    pub fn erase(&self) -> (p: Param)
        ensures
            self.erases_to(&p),
    {
        match self {
            ParamTyped::Eq(v) => Param::Eq(v.serialize_lex()),
            ParamTyped::Neq(v) => Param::Neq(v.serialize_lex()),
            ParamTyped::Range(r) => Param::Range(
                GeneralRange(encode_bound(&r.0), encode_bound(&r.1)),
            ),
            ParamTyped::In(list) => Param::In(encode_all(list)),
            ParamTyped::Nin(list) => Param::Nin(encode_all(list)),
        }
    }

    /// Whether `a` and `b` are the same value, by the order of the codec:
    /// neither sorts before the other.
    pub open spec fn same(a: &T, b: &T) -> bool {
        !a.sorts_before(b) && !b.sorts_before(a)
    }

    /// Whether `x` meets the constraint, by the order of the codec.
    pub open spec fn admits(&self, x: &T) -> bool {
        match self {
            ParamTyped::Eq(v) => Self::same(v, x),
            ParamTyped::Neq(v) => !Self::same(v, x),
            ParamTyped::Range(r) => {
                &&& match r.0 {
                    Bound::Included(s) => !x.sorts_before(&s),
                    Bound::Excluded(s) => s.sorts_before(x),
                    Bound::Unbounded => true,
                }
                &&& match r.1 {
                    Bound::Included(e) => !e.sorts_before(x),
                    Bound::Excluded(e) => x.sorts_before(&e),
                    Bound::Unbounded => true,
                }
            },
            ParamTyped::In(list) => exists|i: int|
                0 <= i < list@.len() && Self::same(#[trigger] &list@[i], x),
            ParamTyped::Nin(list) => !exists|i: int|
                0 <= i < list@.len() && Self::same(#[trigger] &list@[i], x),
        }
    }

    /// Two values have one encoding exactly when neither sorts before the
    /// other.
    pub proof fn lemma_same_encoding(a: &T, b: &T)
        ensures
            (a.lex_bytes() == b.lex_bytes()) <==> Self::same(a, b),
    {
        a.lemma_order(b);
        b.lemma_order(a);
        lemma_lex_total(a.lex_bytes(), b.lex_bytes());
        if lex_lt(a.lex_bytes(), b.lex_bytes()) {
            lemma_lex_asymmetric(a.lex_bytes(), b.lex_bytes());
        }
        if lex_lt(b.lex_bytes(), a.lex_bytes()) {
            lemma_lex_asymmetric(b.lex_bytes(), a.lex_bytes());
        }
    }

    /// Erasure keeps the meaning of a constraint: the erased constraint
    /// holds of the encoding of `x` exactly when the typed constraint
    /// admits `x`.
    pub proof fn lemma_erasure(&self, p: &Param, x: &T)
        requires
            self.erases_to(p),
        ensures
            p.test_spec(x.lex_bytes()) == self.admits(x),
    {
        let xb = x.lex_bytes();
        match self {
            ParamTyped::Eq(v) => {
                Self::lemma_same_encoding(v, x);
            },
            ParamTyped::Neq(v) => {
                Self::lemma_same_encoding(v, x);
            },
            ParamTyped::Range(r) => {
                match r.0 {
                    Bound::Included(s) => {
                        Self::lemma_same_encoding(&s, x);
                        s.lemma_order(x);
                        x.lemma_order(&s);
                    },
                    Bound::Excluded(s) => {
                        s.lemma_order(x);
                    },
                    Bound::Unbounded => {},
                }
                match r.1 {
                    Bound::Included(e) => {
                        Self::lemma_same_encoding(x, &e);
                        e.lemma_order(x);
                        x.lemma_order(&e);
                    },
                    Bound::Excluded(e) => {
                        x.lemma_order(&e);
                    },
                    Bound::Unbounded => {},
                }
            },
            ParamTyped::In(list) => {
                Self::lemma_erased_list(list@, p->In_0@, x);
            },
            ParamTyped::Nin(list) => {
                Self::lemma_erased_list(list@, p->Nin_0@, x);
            },
        }
    }

    /// An encoding occurs in the encoded list exactly when its value occurs
    /// in the list.
    pub proof fn lemma_erased_list(list: Seq<T>, bytes: Seq<Vec<u8>>, x: &T)
        requires
            encodes(list, bytes),
        ensures
            occurs_bytes(bytes, x.lex_bytes()) <==> exists|i: int|
                0 <= i < list.len() && Self::same(#[trigger] &list[i], x),
    {
        if occurs_bytes(bytes, x.lex_bytes()) {
            let i = choose|i: int| 0 <= i < bytes.len() && (#[trigger] bytes[i])@ == x.lex_bytes();
            Self::lemma_same_encoding(&list[i], x);
            assert(Self::same(&list[i], x));
        }
        if exists|i: int| 0 <= i < list.len() && Self::same(#[trigger] &list[i], x) {
            let i = choose|i: int| 0 <= i < list.len() && Self::same(#[trigger] &list[i], x);
            Self::lemma_same_encoding(&list[i], x);
            assert(bytes[i]@ == x.lex_bytes());
        }
    }
}

} // verus!
