//! Framing of byte blocks.
//!
//! Records are stored as a packed list of byte blocks: the number of blocks
//! as eight big-endian bytes, then each block behind its length, also eight
//! big-endian bytes. Unpacking is the inverse of packing, and accepts nothing
//! that packing does not produce.

use vstd::prelude::*;
use crate::lexicographic::{all_ones, be_bytes, encode_be, fits, lemma_be_len, lemma_fits_bound};

verus! {

/// The number that the big-endian digits `s` stand for.
pub open spec fn be_value(s: Seq<u8>) -> nat
    decreases s.len(),
{
    if s.len() == 0 {
        0
    } else {
        be_value(s.drop_last()) * 256 + s.last() as nat
    }
}

/// Reading the big-endian digits of a number gives the number back.
pub proof fn lemma_be_value_of_bytes(x: nat, width: nat)
    requires
        fits(x, width),
    ensures
        be_value(be_bytes(x, width)) == x,
    decreases width,
{
    if width > 0 {
        let w = (width - 1) as nat;
        lemma_be_value_of_bytes(x / 256, w);
        assert(be_bytes(x, width).drop_last() =~= be_bytes(x / 256, w));
    }
}

/// Digits stand for a number that fits in as many digits.
pub proof fn lemma_be_value_bound(s: Seq<u8>)
    ensures
        be_value(s) <= all_ones(s.len()),
    decreases s.len(),
{
    if s.len() > 0 {
        lemma_be_value_bound(s.drop_last());
    }
}

/// The width of a length field, in bytes.
pub const LENGTH_WIDTH: usize = 8;

/// The largest length that a length field can hold.
pub open spec fn max_length() -> nat {
    0xffff_ffff_ffff_ffff
}

pub proof fn lemma_max_length()
    ensures
        all_ones(8) == max_length(),
{
    reveal_with_fuel(all_ones, 9);
}

/// A block behind its length.
pub open spec fn frame(block: Seq<u8>) -> Seq<u8> {
    be_bytes(block.len(), 8) + block
}

/// The frames of `blocks`, one after the other.
pub open spec fn frames(blocks: Seq<Seq<u8>>) -> Seq<u8>
    decreases blocks.len(),
{
    if blocks.len() == 0 {
        Seq::empty()
    } else {
        frames(blocks.drop_last()) + frame(blocks.last())
    }
}

/// The packed form of a list of blocks.
pub open spec fn pack(blocks: Seq<Seq<u8>>) -> Seq<u8> {
    be_bytes(blocks.len(), 8) + frames(blocks)
}

/// The block at the front of `s`, and what follows it.
pub open spec fn unframe(s: Seq<u8>) -> Option<(Seq<u8>, Seq<u8>)> {
    if s.len() < 8 {
        None
    } else {
        let n = be_value(s.take(8));
        if s.len() - 8 < n {
            None
        } else {
            Some((s.subrange(8, 8 + n as int), s.skip(8 + n as int)))
        }
    }
}

/// The `count` blocks at the front of `s`, and what follows them.
pub open spec fn unframes(s: Seq<u8>, count: nat) -> Option<(Seq<Seq<u8>>, Seq<u8>)>
    decreases count,
{
    if count == 0 {
        Some((Seq::empty(), s))
    } else {
        match unframe(s) {
            None => None,
            Some((block, rest)) => match unframes(rest, (count - 1) as nat) {
                None => None,
                Some((blocks, after)) => Some((seq![block] + blocks, after)),
            },
        }
    }
}

/// The list of blocks that `s` is the packed form of, if it is one.
pub open spec fn unpack(s: Seq<u8>) -> Option<Seq<Seq<u8>>> {
    if s.len() < 8 {
        None
    } else {
        match unframes(s.skip(8), be_value(s.take(8))) {
            None => None,
            Some((blocks, after)) => if after.len() == 0 {
                Some(blocks)
            } else {
                None
            },
        }
    }
}

/// Every block of `blocks`, and their number, has a length that a length
/// field can hold.
pub open spec fn packable(blocks: Seq<Seq<u8>>) -> bool {
    &&& blocks.len() <= max_length()
    &&& forall|i: int| 0 <= i < blocks.len() ==> (#[trigger] blocks[i]).len() <= max_length()
}

proof fn lemma_unframe_frame(block: Seq<u8>, rest: Seq<u8>)
    requires
        block.len() <= max_length(),
    ensures
        unframe(frame(block) + rest) == Some((block, rest)),
{
    let s = frame(block) + rest;
    let header = be_bytes(block.len(), 8);
    lemma_be_len(block.len(), 8);
    lemma_max_length();
    lemma_fits_bound(block.len(), 8);
    lemma_be_value_of_bytes(block.len(), 8);
    assert(s.take(8) =~= header);
    assert(s.subrange(8, 8 + block.len() as int) =~= block);
    assert(s.skip(8 + block.len() as int) =~= rest);
}

/// Taking `i + j` blocks is taking `i` blocks and then `j` more.
pub proof fn lemma_unframes_split(s: Seq<u8>, i: nat, j: nat)
    ensures
        unframes(s, i + j) == match unframes(s, i) {
            None => None,
            Some((blocks, rest)) => match unframes(rest, j) {
                None => None,
                Some((more, after)) => Some((blocks + more, after)),
            },
        },
    decreases i,
{
    if i == 0 {
        match unframes(s, j) {
            None => {},
            Some((more, after)) => {
                assert(Seq::<Seq<u8>>::empty() + more =~= more);
            },
        }
    } else {
        match unframe(s) {
            None => {},
            Some((block, rest)) => {
                lemma_unframes_split(rest, (i - 1) as nat, j);
                assert((i + j - 1) as nat == (i - 1) as nat + j);
                match unframes(rest, (i - 1) as nat) {
                    None => {},
                    Some((blocks, mid)) => {
                        match unframes(mid, j) {
                            None => {},
                            Some((more, after)) => {
                                assert(seq![block] + (blocks + more) =~= (seq![block] + blocks)
                                    + more);
                            },
                        }
                    },
                }
            },
        }
    }
}

proof fn lemma_unframes_frames(blocks: Seq<Seq<u8>>, rest: Seq<u8>)
    requires
        packable(blocks),
    ensures
        unframes(frames(blocks) + rest, blocks.len()) == Some((blocks, rest)),
    decreases blocks.len(),
{
    if blocks.len() > 0 {
        let front = blocks.drop_last();
        let last = blocks.last();
        let tail = frame(last) + rest;
        assert(packable(front));
        lemma_unframes_frames(front, tail);
        lemma_unframe_frame(last, rest);
        assert(frames(blocks) + rest =~= frames(front) + tail);
        lemma_unframes_split(frames(blocks) + rest, front.len(), 1);
        assert(unframes(rest, 0) == Some((Seq::<Seq<u8>>::empty(), rest)));
        assert(seq![last] + Seq::<Seq<u8>>::empty() =~= seq![last]);
        assert(front + seq![last] =~= blocks);
    }
}

/// Unpacking is the inverse of packing.
pub proof fn lemma_unpack_pack(blocks: Seq<Seq<u8>>)
    requires
        packable(blocks),
    ensures
        unpack(pack(blocks)) == Some(blocks),
{
    let s = pack(blocks);
    let header = be_bytes(blocks.len(), 8);
    lemma_be_len(blocks.len(), 8);
    lemma_max_length();
    lemma_fits_bound(blocks.len(), 8);
    lemma_be_value_of_bytes(blocks.len(), 8);
    assert(s.take(8) =~= header);
    assert(s.skip(8) =~= frames(blocks) + Seq::<u8>::empty());
    lemma_unframes_frames(blocks, Seq::empty());
}

/// The bytes of each block.
pub open spec fn block_views(blocks: Seq<Vec<u8>>) -> Seq<Seq<u8>> {
    Seq::new(blocks.len(), |i: int| blocks[i]@)
}

/// Append the frame of `block` to `out`.
fn write_frame(out: &mut Vec<u8>, block: &[u8])
    ensures
        final(out)@ == old(out)@ + frame(block@),
        block@.len() <= max_length(),
{
    let mut header = encode_be(block.len() as u128, 8);
    let ghost before = out@;
    out.append(&mut header);
    out.extend_from_slice(block);
    assert(out@ =~= before + frame(block@));
}

/// The packed form of `blocks`.
pub fn pack_blocks(blocks: &Vec<Vec<u8>>) -> (bytes: Vec<u8>)
    ensures
        bytes@ == pack(block_views(blocks@)),
        packable(block_views(blocks@)),
{
    let mut bytes = encode_be(blocks.len() as u128, 8);
    let ghost views = block_views(blocks@);
    let mut i: usize = 0;
    assert(views.take(0) =~= Seq::<Seq<u8>>::empty());
    assert(bytes@ =~= be_bytes(blocks@.len(), 8) + frames(views.take(0)));
    while i < blocks.len()
        invariant
            i <= blocks.len(),
            views == block_views(blocks@),
            bytes@ == be_bytes(blocks@.len(), 8) + frames(views.take(i as int)),
            forall|j: int| 0 <= j < i ==> (#[trigger] views[j]).len() <= max_length(),
        decreases blocks.len() - i,
    {
        let ghost before = bytes@;
        let block = blocks[i].as_slice();
        write_frame(&mut bytes, block);
        proof {
            let next = views.take(i + 1);
            assert(next.drop_last() =~= views.take(i as int));
            assert(next.last() == blocks@[i as int]@);
            assert(bytes@ =~= be_bytes(blocks@.len(), 8) + frames(next));
        }
        i += 1;
    }
    assert(views.take(i as int) =~= views);
    bytes
}

/// The number that `width` big-endian bytes of `bytes` stand for, from
/// position `start`.
fn decode_be(bytes: &[u8], start: usize, width: usize) -> (value: u64)
    requires
        width <= 8,
        start + width <= bytes.len(),
    ensures
        value == be_value(bytes@.subrange(start as int, start + width)),
    decreases width,
{
    if width == 0 {
        0
    } else {
        let front = decode_be(bytes, start, width - 1);
        let last = bytes[start + (width - 1)];
        proof {
            let s = bytes@.subrange(start as int, start + width);
            assert(s.drop_last() =~= bytes@.subrange(start as int, start + width - 1));
            lemma_be_value_bound(s.drop_last());
            lemma_be_value_bound(s);
            lemma_all_ones_monotonic(width as nat, 8);
            lemma_max_length();
        }
        front * 256 + last as u64
    }
}

proof fn lemma_all_ones_monotonic(i: nat, j: nat)
    requires
        i <= j,
    ensures
        all_ones(i) <= all_ones(j),
    decreases j,
{
    if i < j {
        lemma_all_ones_monotonic(i, (j - 1) as nat);
    }
}

/// The list of blocks that `bytes` is the packed form of, if it is one.
pub fn unpack_blocks(bytes: &[u8]) -> (r: Option<Vec<Vec<u8>>>)
    ensures
        match r {
            Some(blocks) => unpack(bytes@) == Some(block_views(blocks@)),
            None => unpack(bytes@) is None,
        },
{
    if bytes.len() < 8 {
        return None;
    }
    let count = decode_be(bytes, 0, 8);
    assert(bytes@.subrange(0, 8) =~= bytes@.take(8));
    let ghost body = bytes@.skip(8);
    let mut blocks: Vec<Vec<u8>> = Vec::new();
    let mut pos: usize = 8;
    let mut i: u64 = 0;
    assert(block_views(blocks@) =~= Seq::<Seq<u8>>::empty());
    assert(bytes@.skip(8) =~= body);
    while i < count
        invariant
            i <= count,
            8 <= pos <= bytes@.len(),
            body == bytes@.skip(8),
            count == be_value(bytes@.take(8)),
            unframes(body, i as nat) == Some((block_views(blocks@), bytes@.skip(pos as int))),
        decreases count - i,
    {
        let ghost rest = bytes@.skip(pos as int);
        proof {
            lemma_unframes_split(body, i as nat, (count - i) as nat);
        }
        if bytes.len() - pos < 8 {
            return None;
        }
        let n = decode_be(bytes, pos, 8);
        assert(bytes@.subrange(pos as int, pos + 8) =~= rest.take(8));
        if ((bytes.len() - pos - 8) as u64) < n {
            return None;
        }
        let start = pos + 8;
        let end = start + n as usize;
        let block = vstd::slice::slice_to_vec(vstd::slice::slice_subrange(bytes, start, end));
        proof {
            assert(rest.subrange(8, 8 + n) =~= block@);
            assert(rest.skip(8 + n) =~= bytes@.skip(end as int));
            assert(unframe(rest) == Some((block@, bytes@.skip(end as int))));
            lemma_unframes_split(body, i as nat, 1);
            assert(unframes(bytes@.skip(end as int), 0) == Some(
                (Seq::<Seq<u8>>::empty(), bytes@.skip(end as int)),
            ));
            assert(seq![block@] + Seq::<Seq<u8>>::empty() =~= seq![block@]);
            assert(block_views(blocks@) + seq![block@] =~= block_views(blocks@.push(block)));
        }
        blocks.push(block);
        pos = end;
        i += 1;
    }
    if pos == bytes.len() {
        Some(blocks)
    } else {
        None
    }
}

} // verus!
