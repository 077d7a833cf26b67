//! The lexicographic codec: typed values are encoded into byte strings whose
//! byte-lexicographic order is the natural order of the values.

use vstd::prelude::*;
use vstd::string::StrSliceExecFns;
use vstd::string::StringSliceAdditionalSpecFns;
use crate::order::{
    lemma_lex_asymmetric, lemma_lex_common_front, lemma_lex_irreflexive, lemma_lex_push,
    lemma_lex_total, lex_le, lex_lt, lex_lt_at,
};

verus! {

/// A value that can be encoded into lexicographically comparable bytes.
///
/// The encoding is order preserving (`lemma_order`), lies between the
/// sentinels `min` and `max` (`lemma_bounds`), and has the advertised length
/// where the type advertises one (`lemma_width`).
pub trait SerializeLexicographic: Sized {
    /// The encoding of `self`.
    spec fn lex_bytes(&self) -> Seq<u8>;

    /// The natural strict order of the source values.
    spec fn sorts_before(&self, other: &Self) -> bool;

    /// A byte string that no encoding sorts before.
    spec fn min_bytes() -> Seq<u8>;

    /// A byte string that no encoding sorts after; absent for open-ended types.
    spec fn max_bytes() -> Option<Seq<u8>>;

    /// The length of every encoding, where all encodings have one length.
    spec fn width() -> Option<u32>;

    fn serialize_lex(&self) -> (bytes: Vec<u8>)
        ensures
            bytes@ == self.lex_bytes(),
    ;

    fn min() -> (bytes: Vec<u8>)
        ensures
            bytes@ == Self::min_bytes(),
    ;

    fn max() -> (bytes: Option<Vec<u8>>)
        ensures
            bytes is Some == Self::max_bytes() is Some,
            bytes is Some ==> bytes->0@ == Self::max_bytes()->0,
    ;

    fn fixed_width() -> (w: Option<u32>)
        ensures
            w == Self::width(),
    ;

    /// Encoding preserves order: the encoding of `self` sorts before that of
    /// `other` exactly when `self` sorts before `other`.
    proof fn lemma_order(&self, other: &Self)
        ensures
            lex_lt(self.lex_bytes(), other.lex_bytes()) <==> self.sorts_before(other),
    ;

    /// Every encoding lies between the two sentinels.
    proof fn lemma_bounds(&self)
        ensures
            lex_le(Self::min_bytes(), self.lex_bytes()),
            Self::max_bytes() is Some ==> lex_le(self.lex_bytes(), Self::max_bytes()->0),
    ;

    /// A fixed-width type encodes every value in that many bytes.
    proof fn lemma_width(&self)
        ensures
            Self::width() is Some ==> self.lex_bytes().len() == Self::width()->0,
    ;
}

/// The big-endian digits of `x` in base 256, `width` of them.
pub open spec fn be_bytes(x: nat, width: nat) -> Seq<u8>
    decreases width,
{
    if width == 0 {
        Seq::empty()
    } else {
        be_bytes(x / 256, (width - 1) as nat).push((x % 256) as u8)
    }
}

/// `x` can be written with `width` digits in base 256.
pub open spec fn fits(x: nat, width: nat) -> bool
    decreases width,
{
    if width == 0 {
        x == 0
    } else {
        fits(x / 256, (width - 1) as nat)
    }
}

/// The largest number that `width` digits in base 256 can hold.
pub open spec fn all_ones(width: nat) -> nat
    decreases width,
{
    if width == 0 {
        0
    } else {
        all_ones((width - 1) as nat) * 256 + 255
    }
}

/// `n` copies of `byte`.
pub open spec fn repeated(byte: u8, n: nat) -> Seq<u8> {
    Seq::new(n, |i: int| byte)
}

pub proof fn lemma_be_len(x: nat, width: nat)
    ensures
        be_bytes(x, width).len() == width,
    decreases width,
{
    if width > 0 {
        lemma_be_len(x / 256, (width - 1) as nat);
    }
}

/// Big-endian digits order numbers as the numbers are ordered.
pub proof fn lemma_be_order(x: nat, y: nat, width: nat)
    requires
        fits(x, width),
        fits(y, width),
    ensures
        lex_lt(be_bytes(x, width), be_bytes(y, width)) <==> x < y,
        be_bytes(x, width) == be_bytes(y, width) <==> x == y,
    decreases width,
{
    if width == 0 {
        lemma_lex_irreflexive(be_bytes(x, width));
    } else {
        let w = (width - 1) as nat;
        lemma_be_order(x / 256, y / 256, w);
        lemma_be_len(x / 256, w);
        lemma_be_len(y / 256, w);
        lemma_lex_push(be_bytes(x / 256, w), (x % 256) as u8, be_bytes(y / 256, w), (y % 256) as u8);
    }
}

pub proof fn lemma_be_zero(width: nat)
    ensures
        be_bytes(0, width) == repeated(0, width),
        fits(0, width),
    decreases width,
{
    if width > 0 {
        lemma_be_zero((width - 1) as nat);
    }
    assert(be_bytes(0, width) =~= repeated(0, width));
}

pub proof fn lemma_be_all_ones(width: nat)
    ensures
        be_bytes(all_ones(width), width) == repeated(0xff, width),
        fits(all_ones(width), width),
    decreases width,
{
    if width > 0 {
        let w = (width - 1) as nat;
        lemma_be_all_ones(w);
        assert(all_ones(width) / 256 == all_ones(w));
        assert(all_ones(width) % 256 == 255);
    }
    assert(be_bytes(all_ones(width), width) =~= repeated(0xff, width));
}

/// Whatever fits in `width` digits is at most `all_ones(width)`.
pub proof fn lemma_fits_bound(x: nat, width: nat)
    ensures
        fits(x, width) <==> x <= all_ones(width),
    decreases width,
{
    if width > 0 {
        lemma_fits_bound(x / 256, (width - 1) as nat);
    }
}

/// Between byte strings of one length, a string that is bytewise no larger
/// sorts no later.
pub proof fn lemma_pointwise_le(a: Seq<u8>, b: Seq<u8>)
    requires
        a.len() == b.len(),
        forall|i: int| 0 <= i < a.len() ==> a[i] <= b[i],
    ensures
        lex_le(a, b),
{
    lemma_lex_total(a, b);
    if lex_lt(b, a) {
        let i = choose|i: int| lex_lt_at(b, a, i);
        assert(a[i] <= b[i]);
    }
}

/// The sequence of `width` big-endian bytes of `x`.
pub fn encode_be(x: u128, width: usize) -> (bytes: Vec<u8>)
    ensures
        bytes@ == be_bytes(x as nat, width as nat),
    decreases width,
{
    if width == 0 {
        Vec::new()
    } else {
        let mut bytes = encode_be(x / 256, width - 1);
        bytes.push((x % 256) as u8);
        bytes
    }
}

/// A vector of `n` copies of `byte`.
pub fn filled(byte: u8, n: usize) -> (bytes: Vec<u8>)
    ensures
        bytes@ == repeated(byte, n as nat),
{
    let mut bytes: Vec<u8> = Vec::new();
    let mut i: usize = 0;
    while i < n
        invariant
            i <= n,
            bytes@ == repeated(byte, i as nat),
        decreases n - i,
    {
        bytes.push(byte);
        i += 1;
        assert(bytes@ =~= repeated(byte, i as nat));
    }
    bytes
}

/// What the codec promises of the unsigned integers, for one width.
pub proof fn lemma_uint_codec(x: nat, y: nat, width: nat)
    requires
        x <= all_ones(width),
        y <= all_ones(width),
    ensures
        lex_lt(be_bytes(x, width), be_bytes(y, width)) <==> x < y,
        be_bytes(x, width) == be_bytes(y, width) <==> x == y,
        lex_le(repeated(0, width), be_bytes(x, width)),
        lex_le(be_bytes(x, width), repeated(0xff, width)),
        be_bytes(x, width).len() == width,
{
    lemma_fits_bound(x, width);
    lemma_fits_bound(y, width);
    lemma_fits_bound(0, width);
    lemma_fits_bound(all_ones(width), width);
    lemma_be_zero(width);
    lemma_be_all_ones(width);
    lemma_be_order(x, y, width);
    lemma_be_order(0, x, width);
    lemma_be_order(x, all_ones(width), width);
    lemma_be_len(x, width);
}

/// `u8`: 1 big-endian byte.
impl SerializeLexicographic for u8 {
    open spec fn lex_bytes(&self) -> Seq<u8> {
        be_bytes(*self as nat, 1)
    }

    open spec fn sorts_before(&self, other: &Self) -> bool {
        *self < *other
    }

    open spec fn min_bytes() -> Seq<u8> {
        repeated(0, 1)
    }

    open spec fn max_bytes() -> Option<Seq<u8>> {
        Some(repeated(0xff, 1))
    }

    open spec fn width() -> Option<u32> {
        Some(1u32)
    }

    fn serialize_lex(&self) -> (bytes: Vec<u8>) {
        encode_be(*self as u128, 1)
    }

    fn min() -> (bytes: Vec<u8>) {
        filled(0, 1)
    }

    fn max() -> (bytes: Option<Vec<u8>>) {
        Some(filled(0xff, 1))
    }

    fn fixed_width() -> (w: Option<u32>) {
        Some(1)
    }

    proof fn lemma_order(&self, other: &Self) {
        reveal_with_fuel(all_ones, 2);
        lemma_uint_codec(*self as nat, *other as nat, 1);
    }

    proof fn lemma_bounds(&self) {
        reveal_with_fuel(all_ones, 2);
        lemma_uint_codec(*self as nat, *self as nat, 1);
    }

    proof fn lemma_width(&self) {
        lemma_be_len(*self as nat, 1);
    }
}

/// `u16`: 2 big-endian bytes.
impl SerializeLexicographic for u16 {
    open spec fn lex_bytes(&self) -> Seq<u8> {
        be_bytes(*self as nat, 2)
    }

    open spec fn sorts_before(&self, other: &Self) -> bool {
        *self < *other
    }

    open spec fn min_bytes() -> Seq<u8> {
        repeated(0, 2)
    }

    open spec fn max_bytes() -> Option<Seq<u8>> {
        Some(repeated(0xff, 2))
    }

    open spec fn width() -> Option<u32> {
        Some(2u32)
    }

    fn serialize_lex(&self) -> (bytes: Vec<u8>) {
        encode_be(*self as u128, 2)
    }

    fn min() -> (bytes: Vec<u8>) {
        filled(0, 2)
    }

    fn max() -> (bytes: Option<Vec<u8>>) {
        Some(filled(0xff, 2))
    }

    fn fixed_width() -> (w: Option<u32>) {
        Some(2)
    }

    proof fn lemma_order(&self, other: &Self) {
        reveal_with_fuel(all_ones, 3);
        lemma_uint_codec(*self as nat, *other as nat, 2);
    }

    proof fn lemma_bounds(&self) {
        reveal_with_fuel(all_ones, 3);
        lemma_uint_codec(*self as nat, *self as nat, 2);
    }

    proof fn lemma_width(&self) {
        lemma_be_len(*self as nat, 2);
    }
}

/// `u32`: 4 big-endian bytes.
impl SerializeLexicographic for u32 {
    open spec fn lex_bytes(&self) -> Seq<u8> {
        be_bytes(*self as nat, 4)
    }

    open spec fn sorts_before(&self, other: &Self) -> bool {
        *self < *other
    }

    open spec fn min_bytes() -> Seq<u8> {
        repeated(0, 4)
    }

    open spec fn max_bytes() -> Option<Seq<u8>> {
        Some(repeated(0xff, 4))
    }

    open spec fn width() -> Option<u32> {
        Some(4u32)
    }

    fn serialize_lex(&self) -> (bytes: Vec<u8>) {
        encode_be(*self as u128, 4)
    }

    fn min() -> (bytes: Vec<u8>) {
        filled(0, 4)
    }

    fn max() -> (bytes: Option<Vec<u8>>) {
        Some(filled(0xff, 4))
    }

    fn fixed_width() -> (w: Option<u32>) {
        Some(4)
    }

    proof fn lemma_order(&self, other: &Self) {
        reveal_with_fuel(all_ones, 5);
        lemma_uint_codec(*self as nat, *other as nat, 4);
    }

    proof fn lemma_bounds(&self) {
        reveal_with_fuel(all_ones, 5);
        lemma_uint_codec(*self as nat, *self as nat, 4);
    }

    proof fn lemma_width(&self) {
        lemma_be_len(*self as nat, 4);
    }
}

/// `u64`: 8 big-endian bytes.
impl SerializeLexicographic for u64 {
    open spec fn lex_bytes(&self) -> Seq<u8> {
        be_bytes(*self as nat, 8)
    }

    open spec fn sorts_before(&self, other: &Self) -> bool {
        *self < *other
    }

    open spec fn min_bytes() -> Seq<u8> {
        repeated(0, 8)
    }

    open spec fn max_bytes() -> Option<Seq<u8>> {
        Some(repeated(0xff, 8))
    }

    open spec fn width() -> Option<u32> {
        Some(8u32)
    }

    fn serialize_lex(&self) -> (bytes: Vec<u8>) {
        encode_be(*self as u128, 8)
    }

    fn min() -> (bytes: Vec<u8>) {
        filled(0, 8)
    }

    fn max() -> (bytes: Option<Vec<u8>>) {
        Some(filled(0xff, 8))
    }

    fn fixed_width() -> (w: Option<u32>) {
        Some(8)
    }

    proof fn lemma_order(&self, other: &Self) {
        reveal_with_fuel(all_ones, 9);
        lemma_uint_codec(*self as nat, *other as nat, 8);
    }

    proof fn lemma_bounds(&self) {
        reveal_with_fuel(all_ones, 9);
        lemma_uint_codec(*self as nat, *self as nat, 8);
    }

    proof fn lemma_width(&self) {
        lemma_be_len(*self as nat, 8);
    }
}

/// `u128`: 16 big-endian bytes.
impl SerializeLexicographic for u128 {
    open spec fn lex_bytes(&self) -> Seq<u8> {
        be_bytes(*self as nat, 16)
    }

    open spec fn sorts_before(&self, other: &Self) -> bool {
        *self < *other
    }

    open spec fn min_bytes() -> Seq<u8> {
        repeated(0, 16)
    }

    open spec fn max_bytes() -> Option<Seq<u8>> {
        Some(repeated(0xff, 16))
    }

    open spec fn width() -> Option<u32> {
        Some(16u32)
    }

    fn serialize_lex(&self) -> (bytes: Vec<u8>) {
        encode_be(*self, 16)
    }

    fn min() -> (bytes: Vec<u8>) {
        filled(0, 16)
    }

    fn max() -> (bytes: Option<Vec<u8>>) {
        Some(filled(0xff, 16))
    }

    fn fixed_width() -> (w: Option<u32>) {
        Some(16)
    }

    proof fn lemma_order(&self, other: &Self) {
        reveal_with_fuel(all_ones, 17);
        lemma_uint_codec(*self as nat, *other as nat, 16);
    }

    proof fn lemma_bounds(&self) {
        reveal_with_fuel(all_ones, 17);
        lemma_uint_codec(*self as nat, *self as nat, 16);
    }

    proof fn lemma_width(&self) {
        lemma_be_len(*self as nat, 16);
    }
}

/// Terminating two byte strings with `0x00` keeps their order.
pub proof fn lemma_terminated_order(a: Seq<u8>, b: Seq<u8>)
    ensures
        lex_lt(a.push(0), b.push(0)) <==> lex_lt(a, b),
{
    let ap = a.push(0);
    let bp = b.push(0);
    let n = a.len() as int;
    if lex_lt(a, b) {
        let i = choose|i: int| lex_lt_at(a, b, i);
        if i < n {
            assert(lex_lt_at(ap, bp, i));
        } else if b[i] > 0 {
            assert(lex_lt_at(ap, bp, i));
        } else {
            assert(lex_lt_at(ap, bp, i + 1));
        }
    }
    if lex_lt(ap, bp) {
        let k = choose|k: int| lex_lt_at(ap, bp, k);
        if k == n + 1 {
            assert forall|j: int| 0 <= j < n implies a[j] == b[j] by {
                assert(ap[j] == bp[j]);
            }
            assert(lex_lt_at(a, b, n));
        } else {
            assert forall|j: int| 0 <= j < k implies a[j] == b[j] by {
                assert(ap[j] == bp[j]);
            }
            assert(k < b.len());
            assert(lex_lt_at(a, b, k));
        }
    }
}

/// Nothing that ends in `0x00` sorts before the lone terminator.
pub proof fn lemma_terminator_sorts_first(a: Seq<u8>)
    ensures
        lex_le(seq![0u8], a.push(0)),
{
    let m = seq![0u8];
    let ap = a.push(0);
    if a.len() == 0 {
        assert(m =~= ap);
    } else if a[0] == 0 {
        assert(lex_lt_at(m, ap, 1));
    } else {
        assert(lex_lt_at(m, ap, 0));
    }
}

/// Strings: the UTF-8 bytes followed by a terminating `0x00`. Strings are
/// ordered by their UTF-8 bytes.
impl SerializeLexicographic for String {
    open spec fn lex_bytes(&self) -> Seq<u8> {
        vstd::utf8::encode_utf8(self@).push(0)
    }

    open spec fn sorts_before(&self, other: &Self) -> bool {
        lex_lt(vstd::utf8::encode_utf8(self@), vstd::utf8::encode_utf8(other@))
    }

    open spec fn min_bytes() -> Seq<u8> {
        seq![0u8]
    }

    open spec fn max_bytes() -> Option<Seq<u8>> {
        None
    }

    open spec fn width() -> Option<u32> {
        None
    }

    fn serialize_lex(&self) -> (bytes: Vec<u8>) {
        let mut bytes = self.as_str().as_bytes_vec();
        bytes.push(0);
        bytes
    }

    fn min() -> (bytes: Vec<u8>) {
        let bytes = filled(0, 1);
        assert(bytes@ =~= seq![0u8]);
        bytes
    }

    fn max() -> (bytes: Option<Vec<u8>>) {
        None
    }

    fn fixed_width() -> (w: Option<u32>) {
        None
    }

    proof fn lemma_order(&self, other: &Self) {
        lemma_terminated_order(vstd::utf8::encode_utf8(self@), vstd::utf8::encode_utf8(other@));
    }

    proof fn lemma_bounds(&self) {
        lemma_terminator_sorts_first(vstd::utf8::encode_utf8(self@));
    }

    proof fn lemma_width(&self) {
    }
}

/// String slices are encoded as strings are.
impl SerializeLexicographic for &str {
    open spec fn lex_bytes(&self) -> Seq<u8> {
        vstd::utf8::encode_utf8(self@).push(0)
    }

    open spec fn sorts_before(&self, other: &Self) -> bool {
        lex_lt(vstd::utf8::encode_utf8(self@), vstd::utf8::encode_utf8(other@))
    }

    open spec fn min_bytes() -> Seq<u8> {
        seq![0u8]
    }

    open spec fn max_bytes() -> Option<Seq<u8>> {
        None
    }

    open spec fn width() -> Option<u32> {
        None
    }

    fn serialize_lex(&self) -> (bytes: Vec<u8>) {
        let mut bytes = self.as_bytes_vec();
        bytes.push(0);
        bytes
    }

    fn min() -> (bytes: Vec<u8>) {
        let bytes = filled(0, 1);
        assert(bytes@ =~= seq![0u8]);
        bytes
    }

    fn max() -> (bytes: Option<Vec<u8>>) {
        None
    }

    fn fixed_width() -> (w: Option<u32>) {
        None
    }

    proof fn lemma_order(&self, other: &Self) {
        lemma_terminated_order(vstd::utf8::encode_utf8(self@), vstd::utf8::encode_utf8(other@));
    }

    proof fn lemma_bounds(&self) {
        lemma_terminator_sorts_first(vstd::utf8::encode_utf8(self@));
    }

    proof fn lemma_width(&self) {
    }
}

/// Booleans: one byte, `0x00` for `false` and `0x01` for `true`.
impl SerializeLexicographic for bool {
    open spec fn lex_bytes(&self) -> Seq<u8> {
        if *self {
            seq![1u8]
        } else {
            seq![0u8]
        }
    }

    open spec fn sorts_before(&self, other: &Self) -> bool {
        !*self && *other
    }

    open spec fn min_bytes() -> Seq<u8> {
        seq![0u8]
    }

    open spec fn max_bytes() -> Option<Seq<u8>> {
        Some(seq![1u8])
    }

    open spec fn width() -> Option<u32> {
        Some(1u32)
    }

    fn serialize_lex(&self) -> (bytes: Vec<u8>) {
        let bytes = if *self {
            filled(1, 1)
        } else {
            filled(0, 1)
        };
        assert(bytes@ =~= self.lex_bytes());
        bytes
    }

    fn min() -> (bytes: Vec<u8>) {
        let bytes = filled(0, 1);
        assert(bytes@ =~= seq![0u8]);
        bytes
    }

    fn max() -> (bytes: Option<Vec<u8>>) {
        let bytes = filled(1, 1);
        assert(bytes@ =~= seq![1u8]);
        Some(bytes)
    }

    fn fixed_width() -> (w: Option<u32>) {
        Some(1)
    }

    proof fn lemma_order(&self, other: &Self) {
        let a = self.lex_bytes();
        let b = other.lex_bytes();
        if !*self && *other {
            assert(lex_lt_at(a, b, 0));
        }
        if lex_lt(a, b) {
            let i = choose|i: int| lex_lt_at(a, b, i);
            assert(i == 0);
        }
    }

    proof fn lemma_bounds(&self) {
        let a = self.lex_bytes();
        if *self {
            assert(lex_lt_at(seq![0u8], a, 0));
        }
        if !*self {
            assert(lex_lt_at(a, seq![1u8], 0));
        }
    }

    proof fn lemma_width(&self) {
    }
}

/// Whether byte arrays of length `N` may serve as fixed-width keys: the
/// width that a type advertises is a `u32`.
pub struct AssertSize<const N: usize>;

impl<const N: usize> AssertSize<N> {
    pub open spec fn holds() -> bool {
        N <= u32::MAX
    }

    /// Whether `N` fits in a `u32`.
    pub fn ok() -> (r: bool)
        ensures
            r == Self::holds(),
    {
        N <= u32::MAX as usize
    }
}

/// Fixed-width byte arrays: the bytes as they are.
impl<const N: usize> SerializeLexicographic for [u8; N] {
    open spec fn lex_bytes(&self) -> Seq<u8> {
        self@
    }

    open spec fn sorts_before(&self, other: &Self) -> bool {
        lex_lt(self@, other@)
    }

    open spec fn min_bytes() -> Seq<u8> {
        repeated(0, N as nat)
    }

    open spec fn max_bytes() -> Option<Seq<u8>> {
        Some(repeated(0xff, N as nat))
    }

    open spec fn width() -> Option<u32> {
        if AssertSize::<N>::holds() {
            Some(N as u32)
        } else {
            None
        }
    }

    fn serialize_lex(&self) -> (bytes: Vec<u8>) {
        vstd::slice::slice_to_vec(self.as_slice())
    }

    fn min() -> (bytes: Vec<u8>) {
        filled(0, N)
    }

    fn max() -> (bytes: Option<Vec<u8>>) {
        Some(filled(0xff, N))
    }

    fn fixed_width() -> (w: Option<u32>) {
        if AssertSize::<N>::ok() {
            Some(N as u32)
        } else {
            None
        }
    }

    proof fn lemma_order(&self, other: &Self) {
    }

    proof fn lemma_bounds(&self) {
        lemma_pointwise_le(repeated(0, N as nat), self@);
        lemma_pointwise_le(self@, repeated(0xff, N as nat));
    }

    proof fn lemma_width(&self) {
    }
}

/// Optional values: `None` is `0x00`; `Some(v)` is `0x01` followed by the
/// encoding of `v`. `None` sorts before every `Some`.
impl<T: SerializeLexicographic> SerializeLexicographic for Option<T> {
    open spec fn lex_bytes(&self) -> Seq<u8> {
        match self {
            Some(v) => seq![1u8] + v.lex_bytes(),
            None => seq![0u8],
        }
    }

    open spec fn sorts_before(&self, other: &Self) -> bool {
        match (self, other) {
            (None, Some(_)) => true,
            (Some(a), Some(b)) => a.sorts_before(b),
            _ => false,
        }
    }

    open spec fn min_bytes() -> Seq<u8> {
        seq![0u8]
    }

    open spec fn max_bytes() -> Option<Seq<u8>> {
        match T::max_bytes() {
            Some(m) => Some(seq![1u8] + m),
            None => None,
        }
    }

    open spec fn width() -> Option<u32> {
        None
    }

    fn serialize_lex(&self) -> (bytes: Vec<u8>) {
        match self {
            Some(v) => {
                let mut bytes = filled(1, 1);
                let mut inner = v.serialize_lex();
                bytes.append(&mut inner);
                assert(bytes@ =~= seq![1u8] + v.lex_bytes());
                bytes
            },
            None => {
                let bytes = filled(0, 1);
                assert(bytes@ =~= seq![0u8]);
                bytes
            },
        }
    }

    fn min() -> (bytes: Vec<u8>) {
        let bytes = filled(0, 1);
        assert(bytes@ =~= seq![0u8]);
        bytes
    }

    fn max() -> (bytes: Option<Vec<u8>>) {
        match T::max() {
            Some(mut inner) => {
                let mut bytes = filled(1, 1);
                bytes.append(&mut inner);
                assert(bytes@ =~= seq![1u8] + T::max_bytes()->0);
                Some(bytes)
            },
            None => None,
        }
    }

    fn fixed_width() -> (w: Option<u32>) {
        None
    }

    proof fn lemma_order(&self, other: &Self) {
        let a = self.lex_bytes();
        let b = other.lex_bytes();
        match (self, other) {
            (Some(x), Some(y)) => {
                x.lemma_order(y);
                lemma_lex_common_front(seq![1u8], x.lex_bytes(), y.lex_bytes());
            },
            (None, Some(_)) => {
                assert(lex_lt_at(a, b, 0));
            },
            (Some(_), None) => {
                assert(lex_lt_at(b, a, 0));
                lemma_lex_asymmetric(b, a);
            },
            (None, None) => {
                lemma_lex_irreflexive(a);
            },
        }
    }

    proof fn lemma_bounds(&self) {
        let a = self.lex_bytes();
        match self {
            Some(x) => {
                assert(lex_lt_at(seq![0u8], a, 0));
                x.lemma_bounds();
                if T::max_bytes() is Some {
                    let m = T::max_bytes()->0;
                    lemma_lex_common_front(seq![1u8], x.lex_bytes(), m);
                }
            },
            None => {
                if T::max_bytes() is Some {
                    assert(lex_lt_at(a, seq![1u8] + T::max_bytes()->0, 0));
                }
            },
        }
    }

    proof fn lemma_width(&self) {
    }
}

} // verus!
