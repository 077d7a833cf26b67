//! Journal transactions: the operations of one committed transaction, in
//! the order in which they were made, behind the hash of the transaction
//! that went before.

use vstd::prelude::*;
use vstd::string::StrSliceExecFns;
use vstd::utf8::{decode_utf8, encode_utf8, valid_utf8};
use crate::bytes::Bytes;
use crate::document::string_from_utf8;
use crate::wire::{
    block_views, lemma_unpack_pack, pack, pack_blocks, packable, unpack, unpack_blocks,
};

verus! {

/// The number of bytes of a transaction hash.
pub const HASH_LENGTH: usize = 32;

/// One operation of a transaction.
#[derive(Debug, Clone)]
pub enum TransactionOperation {
    /// Give a table another name.
    RenameTable(String, String),
    /// Give a multimap table another name.
    RenameMultimapTable(String, String),
    /// Delete a table.
    DeleteTable(String),
    /// Delete a multimap table.
    DeleteMultimapTable(String),
    /// Open a table for writing.
    OpenTable(String),
    /// Open a multimap table for writing.
    OpenMultimapTable(String),
    /// Set the value of a key; in a multimap table, add the value to those
    /// of the key.
    Insert { table_name: String, key_bytes: Bytes, value_bytes: Bytes },
    /// Remove a key.
    Remove(String, Bytes),
    /// Commit the transaction. It is the last operation of every
    /// transaction that is stored.
    Commit,
}

/// An operation as contracts see it.
pub enum OperationView {
    RenameTable(Seq<char>, Seq<char>),
    RenameMultimapTable(Seq<char>, Seq<char>),
    DeleteTable(Seq<char>),
    DeleteMultimapTable(Seq<char>),
    OpenTable(Seq<char>),
    OpenMultimapTable(Seq<char>),
    Insert { table_name: Seq<char>, key_bytes: Seq<u8>, value_bytes: Seq<u8> },
    Remove(Seq<char>, Seq<u8>),
    Commit,
}

impl View for TransactionOperation {
    type V = OperationView;

    open spec fn view(&self) -> OperationView {
        match self {
            TransactionOperation::RenameTable(a, b) => OperationView::RenameTable(a@, b@),
            TransactionOperation::RenameMultimapTable(a, b) => OperationView::RenameMultimapTable(
                a@,
                b@,
            ),
            TransactionOperation::DeleteTable(a) => OperationView::DeleteTable(a@),
            TransactionOperation::DeleteMultimapTable(a) => OperationView::DeleteMultimapTable(a@),
            TransactionOperation::OpenTable(a) => OperationView::OpenTable(a@),
            TransactionOperation::OpenMultimapTable(a) => OperationView::OpenMultimapTable(a@),
            TransactionOperation::Insert { table_name, key_bytes, value_bytes } => OperationView::Insert {
                table_name: table_name@,
                key_bytes: key_bytes@,
                value_bytes: value_bytes@,
            },
            TransactionOperation::Remove(a, k) => OperationView::Remove(a@, k@),
            TransactionOperation::Commit => OperationView::Commit,
        }
    }
}

/// The views of a list of operations.
pub open spec fn operation_views(operations: Seq<TransactionOperation>) -> Seq<OperationView> {
    Seq::new(operations.len(), |i: int| operations[i]@)
}

impl OperationView {
    /// The number that stands for the kind of operation in its stored form.
    pub open spec fn tag(self) -> u8 {
        match self {
            OperationView::RenameTable(_, _) => 0,
            OperationView::RenameMultimapTable(_, _) => 1,
            OperationView::DeleteTable(_) => 2,
            OperationView::DeleteMultimapTable(_) => 3,
            OperationView::OpenTable(_) => 4,
            OperationView::OpenMultimapTable(_) => 5,
            OperationView::Insert { .. } => 6,
            OperationView::Remove(_, _) => 7,
            OperationView::Commit => 8,
        }
    }

    /// The four blocks that the operation is stored as: its tag and its
    /// arguments, with empty blocks for the arguments that it lacks.
    pub open spec fn blocks(self) -> Seq<Seq<u8>> {
        let none = Seq::<u8>::empty();
        let tag = seq![self.tag()];
        match self {
            OperationView::RenameTable(a, b) => seq![tag, encode_utf8(a), encode_utf8(b), none],
            OperationView::RenameMultimapTable(a, b) => seq![tag, encode_utf8(a), encode_utf8(b), none],
            OperationView::DeleteTable(a) => seq![tag, encode_utf8(a), none, none],
            OperationView::DeleteMultimapTable(a) => seq![tag, encode_utf8(a), none, none],
            OperationView::OpenTable(a) => seq![tag, encode_utf8(a), none, none],
            OperationView::OpenMultimapTable(a) => seq![tag, encode_utf8(a), none, none],
            OperationView::Insert { table_name, key_bytes, value_bytes } => seq![
                tag,
                encode_utf8(table_name),
                key_bytes,
                value_bytes,
            ],
            OperationView::Remove(a, k) => seq![tag, encode_utf8(a), k, none],
            OperationView::Commit => seq![tag, none, none, none],
        }
    }

    /// The operation that four blocks stand for, if they stand for one.
    pub open spec fn from_blocks(tag: Seq<u8>, a: Seq<u8>, b: Seq<u8>, c: Seq<u8>) -> Option<
        OperationView,
    > {
        if tag.len() != 1 {
            None
        } else if tag[0] == 8 {
            Some(OperationView::Commit)
        } else if tag[0] > 8 || !valid_utf8(a) {
            None
        } else if tag[0] == 0 || tag[0] == 1 {
            if !valid_utf8(b) {
                None
            } else if tag[0] == 0 {
                Some(OperationView::RenameTable(decode_utf8(a), decode_utf8(b)))
            } else {
                Some(OperationView::RenameMultimapTable(decode_utf8(a), decode_utf8(b)))
            }
        } else if tag[0] == 2 {
            Some(OperationView::DeleteTable(decode_utf8(a)))
        } else if tag[0] == 3 {
            Some(OperationView::DeleteMultimapTable(decode_utf8(a)))
        } else if tag[0] == 4 {
            Some(OperationView::OpenTable(decode_utf8(a)))
        } else if tag[0] == 5 {
            Some(OperationView::OpenMultimapTable(decode_utf8(a)))
        } else if tag[0] == 6 {
            Some(OperationView::Insert { table_name: decode_utf8(a), key_bytes: b, value_bytes: c })
        } else {
            Some(OperationView::Remove(decode_utf8(a), b))
        }
    }

    /// The blocks of an operation stand for the operation.
    pub proof fn lemma_blocks_round_trip(self)
        ensures
            self.blocks().len() == 4,
            Self::from_blocks(self.blocks()[0], self.blocks()[1], self.blocks()[2], self.blocks()[3])
                == Some(self),
    {
        broadcast use vstd::utf8::encode_utf8_valid_utf8;
        broadcast use vstd::utf8::encode_utf8_decode_utf8;

    }
}

/// The operations of one committed transaction.
#[derive(Debug, Clone)]
pub struct JournalTransaction {
    /// The hash of the transaction that went before; zeros for the first.
    pub last_tx_hash: [u8; 32],
    /// The operations, of which the last is the commit.
    pub operations: Vec<TransactionOperation>,
}

/// A journal transaction as contracts see it.
pub struct JournalTransactionView {
    pub last_tx_hash: Seq<u8>,
    pub operations: Seq<OperationView>,
}

impl View for JournalTransaction {
    type V = JournalTransactionView;

    open spec fn view(&self) -> JournalTransactionView {
        JournalTransactionView {
            last_tx_hash: self.last_tx_hash@,
            operations: operation_views(self.operations@),
        }
    }
}

impl JournalTransactionView {
    /// The list of blocks that the transaction is stored as: the hash of
    /// the transaction before, then the four blocks of each operation.
    pub open spec fn blocks(self) -> Seq<Seq<u8>> {
        Seq::new(
            4 * self.operations.len() + 1,
            |i: int|
                if i == 0 {
                    self.last_tx_hash
                } else {
                    self.operations[(i - 1) / 4].blocks()[(i - 1) % 4]
                },
        )
    }

    /// The operation that the blocks from position `1 + 4 * j` stand for.
    pub open spec fn operation_at(blocks: Seq<Seq<u8>>, j: int) -> Option<OperationView> {
        OperationView::from_blocks(
            blocks[4 * j + 1],
            blocks[4 * j + 2],
            blocks[4 * j + 3],
            blocks[4 * j + 4],
        )
    }

    /// The transaction that a list of blocks stands for, if it stands for
    /// one.
    pub open spec fn from_blocks(blocks: Seq<Seq<u8>>) -> Option<JournalTransactionView> {
        if blocks.len() % 4 == 1 && blocks[0].len() == 32 && (forall|j: int|
            0 <= j < blocks.len() / 4 ==> (#[trigger] Self::operation_at(blocks, j)) is Some) {
            Some(
                JournalTransactionView {
                    last_tx_hash: blocks[0],
                    operations: Seq::new(
                        blocks.len() / 4,
                        |j: int| Self::operation_at(blocks, j)->0,
                    ),
                },
            )
        } else {
            None
        }
    }

    /// The bytes that the transaction is stored as.
    pub open spec fn encoding(self) -> Seq<u8> {
        pack(self.blocks())
    }

    /// The transaction that `bytes` is the stored form of, if it is one.
    pub open spec fn decoding(bytes: Seq<u8>) -> Option<JournalTransactionView> {
        match unpack(bytes) {
            Some(blocks) => Self::from_blocks(blocks),
            None => None,
        }
    }

    /// A list of blocks read back gives the transaction that wrote it.
    pub proof fn lemma_blocks_round_trip(self)
        requires
            self.last_tx_hash.len() == 32,
        ensures
            Self::from_blocks(self.blocks()) == Some(self),
    {
        let blocks = self.blocks();
        assert forall|j: int| 0 <= j < blocks.len() / 4 implies (#[trigger] Self::operation_at(
            blocks,
            j,
        )) == Some(self.operations[j]) by {
            let op = self.operations[j];
            op.lemma_blocks_round_trip();
            assert(blocks[4 * j + 1] == op.blocks()[0]);
            assert(blocks[4 * j + 2] == op.blocks()[1]);
            assert(blocks[4 * j + 3] == op.blocks()[2]);
            assert(blocks[4 * j + 4] == op.blocks()[3]);
        }
        let back = Self::from_blocks(blocks)->0;
        assert(back.operations =~= self.operations);
    }
}

/// What is stored can be read back: decoding the stored form of a
/// transaction gives the transaction.
pub proof fn lemma_transaction_round_trip(tx: JournalTransactionView)
    requires
        tx.last_tx_hash.len() == 32,
        packable(tx.blocks()),
    ensures
        JournalTransactionView::decoding(tx.encoding()) == Some(tx),
{
    lemma_unpack_pack(tx.blocks());
    tx.lemma_blocks_round_trip();
}

/// The BLAKE3 hash of a byte string.
pub uninterp spec fn blake3_digest(bytes: Seq<u8>) -> Seq<u8>;

/// `blake3::hash`: the BLAKE3 hash of `bytes`, which has 32 bytes.
#[verifier::external_body]
fn blake3_hash(bytes: &[u8]) -> (digest: [u8; 32])
    ensures
        digest@ == blake3_digest(bytes@),
{
    blake3::hash(bytes).into()
}

/// The hash of a stored transaction.
pub fn hash_bytes(bytes: &[u8]) -> (digest: [u8; 32])
    ensures
        digest@ == blake3_digest(bytes@),
        digest@.len() == 32,
{
    blake3_hash(bytes)
}

/// A copy of a string.
fn copy_string(s: &String) -> (r: String)
    ensures
        r@ == s@,
{
    s.clone()
}

impl TransactionOperation {
    /// Whether the operation is the commit.
    pub fn is_commit(&self) -> (r: bool)
        ensures
            r == (self@ is Commit),
    {
        match self {
            TransactionOperation::Commit => true,
            _ => false,
        }
    }

    /// A copy of the operation.
    pub fn copy(&self) -> (op: Self)
        ensures
            op@ == self@,
    {
        match self {
            TransactionOperation::RenameTable(a, b) => TransactionOperation::RenameTable(
                copy_string(a),
                copy_string(b),
            ),
            TransactionOperation::RenameMultimapTable(a, b) => TransactionOperation::RenameMultimapTable(
                copy_string(a),
                copy_string(b),
            ),
            TransactionOperation::DeleteTable(a) => TransactionOperation::DeleteTable(copy_string(a)),
            TransactionOperation::DeleteMultimapTable(a) => TransactionOperation::DeleteMultimapTable(
                copy_string(a),
            ),
            TransactionOperation::OpenTable(a) => TransactionOperation::OpenTable(copy_string(a)),
            TransactionOperation::OpenMultimapTable(a) => TransactionOperation::OpenMultimapTable(
                copy_string(a),
            ),
            TransactionOperation::Insert { table_name, key_bytes, value_bytes } => TransactionOperation::Insert {
                table_name: copy_string(table_name),
                key_bytes: key_bytes.copy(),
                value_bytes: value_bytes.copy(),
            },
            TransactionOperation::Remove(a, k) => TransactionOperation::Remove(
                copy_string(a),
                k.copy(),
            ),
            TransactionOperation::Commit => TransactionOperation::Commit,
        }
    }

    /// Append the four blocks of the operation to `out`.
    fn write_blocks(&self, out: &mut Vec<Vec<u8>>)
        ensures
            final(out)@.len() == old(out)@.len() + 4,
            forall|i: int| 0 <= i < old(out)@.len() ==> final(out)@[i] == old(out)@[i],
            forall|i: int| 0 <= i < 4 ==> (#[trigger] final(out)@[old(out)@.len() + i])@ == self@.blocks()[i],
    {
        let tag: u8 = match self {
            TransactionOperation::RenameTable(_, _) => 0,
            TransactionOperation::RenameMultimapTable(_, _) => 1,
            TransactionOperation::DeleteTable(_) => 2,
            TransactionOperation::DeleteMultimapTable(_) => 3,
            TransactionOperation::OpenTable(_) => 4,
            TransactionOperation::OpenMultimapTable(_) => 5,
            TransactionOperation::Insert { .. } => 6,
            TransactionOperation::Remove(_, _) => 7,
            TransactionOperation::Commit => 8,
        };
        let mut tag_block: Vec<u8> = Vec::new();
        tag_block.push(tag);
        assert(tag_block@ =~= seq![self@.tag()]);
        let (a, b, c): (Vec<u8>, Vec<u8>, Vec<u8>) = match self {
            TransactionOperation::RenameTable(x, y) | TransactionOperation::RenameMultimapTable(
                x,
                y,
            ) => (x.as_str().as_bytes_vec(), y.as_str().as_bytes_vec(), Vec::new()),
            TransactionOperation::DeleteTable(x)
            | TransactionOperation::DeleteMultimapTable(x)
            | TransactionOperation::OpenTable(x)
            | TransactionOperation::OpenMultimapTable(x) => (
                x.as_str().as_bytes_vec(),
                Vec::new(),
                Vec::new(),
            ),
            TransactionOperation::Insert { table_name, key_bytes, value_bytes } => (
                table_name.as_str().as_bytes_vec(),
                key_bytes.to_vec(),
                value_bytes.to_vec(),
            ),
            TransactionOperation::Remove(x, k) => (x.as_str().as_bytes_vec(), k.to_vec(), Vec::new()),
            TransactionOperation::Commit => (Vec::new(), Vec::new(), Vec::new()),
        };
        out.push(tag_block);
        out.push(a);
        out.push(b);
        out.push(c);
    }

    /// The operation that four blocks stand for, if they stand for one.
    fn read_blocks(tag: &Vec<u8>, a: &Vec<u8>, b: &Vec<u8>, c: &Vec<u8>) -> (r: Option<
        TransactionOperation,
    >)
        ensures
            match r {
                Some(op) => OperationView::from_blocks(tag@, a@, b@, c@) == Some(op@),
                None => OperationView::from_blocks(tag@, a@, b@, c@) is None,
            },
    {
        if tag.len() != 1 {
            return None;
        }
        let kind = tag[0];
        if kind == 8 {
            return Some(TransactionOperation::Commit);
        }
        if kind > 8 {
            return None;
        }
        let name = match string_from_utf8(vstd::slice::slice_to_vec(a.as_slice())) {
            Some(name) => name,
            None => {
                return None;
            },
        };
        if kind == 0 || kind == 1 {
            let new_name = match string_from_utf8(vstd::slice::slice_to_vec(b.as_slice())) {
                Some(new_name) => new_name,
                None => {
                    return None;
                },
            };
            if kind == 0 {
                Some(TransactionOperation::RenameTable(name, new_name))
            } else {
                Some(TransactionOperation::RenameMultimapTable(name, new_name))
            }
        } else if kind == 2 {
            Some(TransactionOperation::DeleteTable(name))
        } else if kind == 3 {
            Some(TransactionOperation::DeleteMultimapTable(name))
        } else if kind == 4 {
            Some(TransactionOperation::OpenTable(name))
        } else if kind == 5 {
            Some(TransactionOperation::OpenMultimapTable(name))
        } else if kind == 6 {
            Some(
                TransactionOperation::Insert {
                    table_name: name,
                    key_bytes: Bytes::from_slice(b.as_slice()),
                    value_bytes: Bytes::from_slice(c.as_slice()),
                },
            )
        } else {
            Some(TransactionOperation::Remove(name, Bytes::from_slice(b.as_slice())))
        }
    }
}

impl JournalTransaction {
    /// The bytes that the transaction is stored as.
    pub fn encode(&self) -> (bytes: Vec<u8>)
        ensures
            bytes@ == self@.encoding(),
            JournalTransactionView::decoding(bytes@) == Some(self@),
    {
        let mut blocks: Vec<Vec<u8>> = Vec::new();
        blocks.push(vstd::slice::slice_to_vec(self.last_tx_hash.as_slice()));
        let mut i: usize = 0;
        while i < self.operations.len()
            invariant
                i <= self.operations.len(),
                blocks@.len() == 4 * i + 1,
                forall|j: int| 0 <= j < 4 * i + 1 ==> (#[trigger] blocks@[j])@ == self@.blocks()[j],
            decreases self.operations.len() - i,
        {
            let ghost before = blocks@;
            self.operations[i].write_blocks(&mut blocks);
            proof {
                assert forall|j: int| 0 <= j < 4 * (i + 1) + 1 implies (#[trigger] blocks@[j])@
                    == self@.blocks()[j] by {
                    if j < before.len() {
                        assert(blocks@[j] == before[j]);
                    } else {
                        let k = j - before.len();
                        assert(blocks@[before.len() + k]@ == self.operations@[i as int]@.blocks()[k]);
                        assert((j - 1) / 4 == i as int);
                        assert((j - 1) % 4 == k);
                    }
                }
            }
            i += 1;
        }
        assert(block_views(blocks@) =~= self@.blocks());
        let bytes = pack_blocks(&blocks);
        proof {
            lemma_transaction_round_trip(self@);
        }
        bytes
    }

    /// The transaction that `bytes` is the stored form of, if it is one.
    pub fn decode(bytes: &[u8]) -> (r: Option<JournalTransaction>)
        ensures
            match r {
                Some(tx) => JournalTransactionView::decoding(bytes@) == Some(tx@),
                None => JournalTransactionView::decoding(bytes@) is None,
            },
    {
        let blocks = match unpack_blocks(bytes) {
            Some(blocks) => blocks,
            None => {
                return None;
            },
        };
        let ghost all = block_views(blocks@);
        let total = blocks.len();
        if total % 4 != 1 || blocks[0].len() != 32 {
            return None;
        }
        let mut last_tx_hash = [0u8; 32];
        let mut k: usize = 0;
        while k < 32
            invariant
                k <= 32,
                blocks@.len() == total,
                total >= 1,
                blocks@[0]@.len() == 32,
                forall|j: int| 0 <= j < k ==> last_tx_hash@[j] == blocks@[0]@[j],
            decreases 32 - k,
        {
            last_tx_hash[k] = blocks[0][k];
            k += 1;
        }
        assert(last_tx_hash@ =~= all[0]);
        let count = total / 4;
        let mut operations: Vec<TransactionOperation> = Vec::new();
        let mut i: usize = 0;
        while i < count
            invariant
                i <= count,
                total == 4 * count + 1,
                blocks@.len() == total,
                all == block_views(blocks@),
                unpack(bytes@) == Some(all),
                operations@.len() == i,
                forall|j: int|
                    0 <= j < i ==> (#[trigger] JournalTransactionView::operation_at(all, j)) == Some(
                        operations@[j]@,
                    ),
            decreases count - i,
        {
            let op = match TransactionOperation::read_blocks(
                &blocks[4 * i + 1],
                &blocks[4 * i + 2],
                &blocks[4 * i + 3],
                &blocks[4 * i + 4],
            ) {
                Some(op) => op,
                None => {
                    assert(JournalTransactionView::operation_at(all, i as int) is None);
                    return None;
                },
            };
            assert(JournalTransactionView::operation_at(all, i as int) == Some(op@));
            operations.push(op);
            i += 1;
        }
        let tx = JournalTransaction { last_tx_hash, operations };
        proof {
            let expected = JournalTransactionView::from_blocks(all)->0;
            assert(tx@.operations =~= expected.operations);
        }
        Some(tx)
    }

    /// The hash of the transaction: the BLAKE3 hash of its stored form.
    pub fn hash(&self) -> (digest: [u8; 32])
        ensures
            digest@ == blake3_digest(self@.encoding()),
    {
        let bytes = self.encode();
        hash_bytes(bytes.as_slice())
    }
}

} // verus!
