//! The errors of the database.

use vstd::prelude::*;
use vstd::string::StringExecFns;
use crate::kv::KvError;

verus! {

/// What can go wrong in the database.
#[derive(Debug)]
pub enum DbError {
    /// The declared schema is not usable: a collection without a name, a
    /// primary key declared twice or not at all, an index without fields, a
    /// table name used twice.
    InvalidSchema,
    /// An insert collides with a document of the same primary key.
    DuplicatePrimaryKey,
    /// An insert collides with an entry of a unique secondary index.
    UniqueIndexViolation,
    /// An index refers to a primary key that the primary table lacks.
    DanglingIndexEntry,
    /// A stored record cannot be read back.
    CorruptRecord,
    /// A document lacks a field that an index is declared over.
    MissingField,
    /// A journal transaction was built on another state than the journal is in.
    JournalDivergence,
    /// A journal transaction is empty, does not end in a commit, or writes
    /// to a table that it did not open; the journal names a transaction
    /// that the store lacks; or a table is named by the empty string, which
    /// names no table.
    JournalInvariant,
    /// The stored description of the schema differs from the live schema.
    SchemaDrift,
    /// The transaction was committed or aborted before.
    TransactionClosed,
    /// The underlying store failed.
    KVError(KvError),
}

impl DbError {
    /// The name of the kind of error.
    pub open spec fn kind(&self) -> Seq<char> {
        match self {
            DbError::InvalidSchema => "InvalidSchema"@,
            DbError::DuplicatePrimaryKey => "DuplicatePrimaryKey"@,
            DbError::UniqueIndexViolation => "UniqueIndexViolation"@,
            DbError::DanglingIndexEntry => "DanglingIndexEntry"@,
            DbError::CorruptRecord => "CorruptRecord"@,
            DbError::MissingField => "MissingField"@,
            DbError::JournalDivergence => "JournalDivergence"@,
            DbError::JournalInvariant => "JournalInvariant"@,
            DbError::SchemaDrift => "SchemaDrift"@,
            DbError::TransactionClosed => "TransactionClosed"@,
            DbError::KVError(_) => "KVError"@,
        }
    }

    /// The name of the kind of error, as a string.
    pub fn to_string(&self) -> (s: String)
        ensures
            s@ == self.kind(),
    {
        match self {
            DbError::InvalidSchema => String::from_str("InvalidSchema"),
            DbError::DuplicatePrimaryKey => String::from_str("DuplicatePrimaryKey"),
            DbError::UniqueIndexViolation => String::from_str("UniqueIndexViolation"),
            DbError::DanglingIndexEntry => String::from_str("DanglingIndexEntry"),
            DbError::CorruptRecord => String::from_str("CorruptRecord"),
            DbError::MissingField => String::from_str("MissingField"),
            DbError::JournalDivergence => String::from_str("JournalDivergence"),
            DbError::JournalInvariant => String::from_str("JournalInvariant"),
            DbError::SchemaDrift => String::from_str("SchemaDrift"),
            DbError::TransactionClosed => String::from_str("TransactionClosed"),
            DbError::KVError(_) => String::from_str("KVError"),
        }
    }
}

} // verus!
