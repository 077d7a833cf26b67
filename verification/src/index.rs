//! Indexes: the table an index is stored in, the key an index files a
//! document under, the range of keys a query is answered from, and how well
//! an index serves a query.

use vstd::prelude::*;
use vstd::string::StringExecFns;
use std::ops::Bound;
use crate::document::{Document, DocumentView, Query, Queryable};
use crate::error::DbError;
use crate::kv::{
    entries_of, is_scan, lemma_view_with_multimap, lemma_view_with_table, OpaqueItem, Pair, pairs,
    ReadOperations, StoreView, view_of, WriteOperations,
};
use crate::key::{joined, LexicographicKey, SEPARATOR, UPPER_INCLUSIVE};
use crate::order::{lemma_prefix_sorts_first, lex_le, lex_lt, lex_lt_at};
use crate::lexicographic::{filled, repeated};
use crate::query::{bound_bytes, ByteRange, GeneralRange, Param};

verus! {

/// What the codec says of the type of a field.
#[derive(Debug, Clone, Copy, PartialEq, Eq, Structural)]
pub struct LexStats {
    /// The length of every encoding, where all encodings have one length.
    pub fixed_width: Option<u32>,
}

/// The options of an index.
#[derive(Debug, Clone, Copy, PartialEq, Eq, Structural, Hash)]
pub struct IndexOptions {
    /// At most one document for each combination of values of the fields.
    pub unique: bool,
    /// The index is the table of the collection and holds the documents.
    pub primary: bool,
}

impl Default for IndexOptions {
    fn default() -> (o: Self)
        ensures
            o == (IndexOptions { unique: false, primary: false }),
    {
        IndexOptions { unique: false, primary: false }
    }
}

/// One field of an index.
#[derive(Debug)]
pub struct IndexField {
    pub name: String,
    pub stats: LexStats,
}

/// An index over one or more fields of the documents of a collection.
#[derive(Debug)]
pub struct Index {
    /// The name of the collection that the index belongs to.
    pub collection_name: String,
    /// The fields of the index, in the order in which they make up its keys.
    pub field_names: Vec<IndexField>,
    pub options: IndexOptions,
}

/// The names of the first `upto` fields, each behind an underscore.
pub open spec fn underscored(fields: Seq<IndexField>, upto: int) -> Seq<char>
    decreases upto,
{
    if upto <= 0 {
        Seq::empty()
    } else {
        underscored(fields, upto - 1) + "_"@ + fields[upto - 1].name@
    }
}

/// The key that the first `upto` fields of an index file a document under:
/// the values of the fields, joined by separators.
pub open spec fn key_upto(doc: DocumentView, fields: Seq<IndexField>, upto: int) -> Option<Seq<u8>>
    decreases upto,
{
    if upto <= 0 {
        Some(Seq::empty())
    } else {
        match (key_upto(doc, fields, upto - 1), doc.field(fields[upto - 1].name@)) {
            (Some(key), Some(value)) => Some(joined(key, value)),
            _ => None,
        }
    }
}

/// Saturating addition on `usize`.
pub open spec fn sat_add(a: int, b: int) -> int {
    if a + b > usize::MAX {
        usize::MAX as int
    } else {
        a + b
    }
}

/// Saturating multiplication on `usize`.
pub open spec fn sat_mul(a: int, b: int) -> int {
    if a * b > usize::MAX {
        usize::MAX as int
    } else {
        a * b
    }
}

/// The factor by which a constraint of a kind raises the score of an index.
pub open spec fn factor(param: Param) -> int {
    match param {
        Param::Eq(_) => 10,
        Param::In(_) => 8,
        Param::Range(_) => 5,
        Param::Neq(_) => 2,
        Param::Nin(_) => 2,
    }
}

/// Whether a constraint of this kind ends the walk over the fields of an
/// index: no later field can narrow the scan.
pub open spec fn ends_walk(param: Param) -> bool {
    param is Range || param is Neq || param is Nin
}

/// The factor by which serving a query with all of its fields raises the
/// score of an index.
pub const FULL_PREFIX_FACTOR: usize = 10000;

impl Index {
    /// The names of the fields, as contracts see them.
    pub open spec fn names(&self) -> Seq<Seq<char>> {
        Seq::new(self.field_names@.len(), |i: int| self.field_names@[i].name@)
    }

    /// The name of the table that holds the index: the name of the
    /// collection for the primary index; for another, the name of the
    /// collection and of each field, joined by underscores, with the suffix
    /// `_unique` where the index is unique.
    pub open spec fn table_name_spec(&self) -> Seq<char> {
        if self.options.primary {
            self.collection_name@
        } else {
            self.collection_name@ + underscored(
                self.field_names@,
                self.field_names@.len() as int,
            ) + if self.options.unique {
                "_unique"@
            } else {
                Seq::<char>::empty()
            }
        }
    }

    /// Whether the collection of the index has a name: the empty string
    /// names no table.
    pub open spec fn named(&self) -> bool {
        self.collection_name@.len() > 0
    }

    /// The table of an index has a name where the collection has one.
    pub proof fn lemma_table_is_named(&self)
        requires
            self.named(),
        ensures
            self.table_name_spec().len() > 0,
    {
    }

    /// The name of the table that holds the index.
    pub fn table_name(&self) -> (name: String)
        ensures
            name@ == self.table_name_spec(),
            self.named() ==> name@.len() > 0,
    {
        let mut name = self.collection_name.clone();
        if self.options.primary {
            return name;
        }
        let mut i: usize = 0;
        while i < self.field_names.len()
            invariant
                i <= self.field_names.len(),
                name@ == self.collection_name@ + underscored(self.field_names@, i as int),
            decreases self.field_names.len() - i,
        {
            name.append("_");
            name.append(self.field_names[i].name.as_str());
            i += 1;
            assert(name@ =~= self.collection_name@ + underscored(self.field_names@, i as int));
        }
        if self.options.unique {
            name.append("_unique");
        }
        assert(name@ =~= self.table_name_spec());
        proof {
            if self.named() {
                self.lemma_table_is_named();
            }
        }
        name
    }

    /// The key that the index files `doc` under, if `doc` has every field of
    /// the index.
    pub open spec fn key_spec(&self, doc: DocumentView) -> Option<Seq<u8>> {
        key_upto(doc, self.field_names@, self.field_names@.len() as int)
    }

    /// The key that the index files `doc` under. There is none where `doc`
    /// lacks a field of the index.
    pub fn key_of(&self, doc: &Document) -> (r: Option<Vec<u8>>)
        ensures
            match r {
                Some(key) => self.key_spec(doc@) == Some(key@),
                None => self.key_spec(doc@) is None,
            },
    {
        let mut key = LexicographicKey::default();
        let mut i: usize = 0;
        while i < self.field_names.len()
            invariant
                i <= self.field_names.len(),
                key_upto(doc@, self.field_names@, i as int) == Some(key@),
            decreases self.field_names.len() - i,
        {
            match doc.field(self.field_names[i].name.as_str()) {
                Some(value) => {
                    key.append_key_slice(value.as_slice());
                },
                None => {
                    proof {
                        lemma_key_stays_absent(
                            doc@,
                            self.field_names@,
                            i + 1,
                            self.field_names@.len() as int,
                        );
                    }
                    return None;
                },
            }
            i += 1;
        }
        Some(key.take())
    }

    /// What the index stores for `doc` under its key: the document, in the
    /// primary index; its primary key, in another.
    pub open spec fn value_spec(&self, doc: DocumentView, primary_key: Seq<u8>) -> Seq<u8> {
        if self.options.primary {
            doc.encoding()
        } else {
            primary_key
        }
    }

    /// The error that a second entry under one key of a unique index gives.
    pub open spec fn collision(&self) -> DbError {
        if self.options.primary {
            DbError::DuplicatePrimaryKey
        } else {
            DbError::UniqueIndexViolation
        }
    }

    /// What filing `doc` in the index makes of the contents `view`: the
    /// contents with the entry of `doc` in the table of the index, or the
    /// reason why `doc` cannot be filed.
    pub open spec fn file_spec(&self, view: StoreView, doc: DocumentView, primary_key: Seq<u8>) -> Result<
        StoreView,
        DbError,
    > {
        let name = self.table_name_spec();
        let value = self.value_spec(doc, primary_key);
        match self.key_spec(doc) {
            None => Err(DbError::MissingField),
            Some(key) => if !self.options.unique {
                Ok(view.add(name, key, value))
            } else if view.table(name).dom().contains(key) {
                Err(self.collision())
            } else {
                Ok(view.put(name, key, value))
            },
        }
    }

    /// File `doc` in the index, under the key that the index gives it.
    ///
    /// The primary index stores the document, any other index the primary
    /// key. A unique index refuses a second entry under one key. A document
    /// that cannot be filed leaves the transaction as it is. Where the store
    /// fails, nothing is said of what the transaction holds afterwards.
    pub fn insert<W: WriteOperations>(&self, tx: &mut W, doc: &Document, primary_key: &[u8]) -> (r:
        Result<(), DbError>)
        requires
            self.named(),
        ensures
            final(tx).store() == old(tx).store(),
            match r {
                Ok(_) => self.file_spec(view_of(*old(tx)), doc@, primary_key@) == Ok::<
                    StoreView,
                    DbError,
                >(view_of(*final(tx))),
                Err(DbError::KVError(_)) => self.key_spec(doc@) is Some,
                Err(e) => {
                    &&& self.file_spec(view_of(*old(tx)), doc@, primary_key@) == Err::<
                        StoreView,
                        DbError,
                    >(e)
                    &&& view_of(*final(tx)) == view_of(*old(tx))
                },
            },
    {
        let key = match self.key_of(doc) {
            Some(key) => key,
            None => {
                return Err(DbError::MissingField);
            },
        };
        let table_name = self.table_name();
        if self.options.unique {
            let found = match tx.get(table_name.as_str(), key.as_slice()) {
                Ok(found) => found,
                Err(error) => {
                    return Err(DbError::KVError(error));
                },
            };
            if found.is_some() {
                if self.options.primary {
                    return Err(DbError::DuplicatePrimaryKey);
                } else {
                    return Err(DbError::UniqueIndexViolation);
                }
            }
        }
        let result = if self.options.primary {
            let bytes = doc.encode();
            self.store(tx, table_name.as_str(), key.as_slice(), bytes.as_slice())
        } else {
            self.store(tx, table_name.as_str(), key.as_slice(), primary_key)
        };
        match result {
            Ok(_) => {
                proof {
                    if self.options.unique {
                        lemma_view_with_table(*old(tx), *tx, table_name@);
                    } else {
                        lemma_view_with_multimap(*old(tx), *tx, table_name@);
                    }
                }
                Ok(())
            },
            Err(error) => Err(DbError::KVError(error)),
        }
    }

    /// Write one entry to the table of the index.
    fn store<W: WriteOperations>(&self, tx: &mut W, table: &str, key: &[u8], value: &[u8]) -> (r:
        Result<(), crate::kv::KvError>)
        requires
            table@.len() > 0,
        ensures
            final(tx).store() == old(tx).store(),
            r is Ok ==> if self.options.unique {
                &&& final(tx).table(table@) == old(tx).table(table@).insert(key@, value@)
                &&& crate::kv::same_but_table(*old(tx), *final(tx), table@)
            } else {
                &&& final(tx).multimap(table@) == old(tx).multimap(table@).insert((key@, value@))
                &&& crate::kv::same_but_multimap(*old(tx), *final(tx), table@)
            },
    {
        if self.options.unique {
            match tx.insert(table, key, value) {
                Ok(_) => Ok(()),
                Err(error) => Err(error),
            }
        } else {
            tx.insert_multimap(table, key, value)
        }
    }

    /// The entries of the index, as a set of pairs.
    pub open spec fn entries(&self, view: StoreView) -> Set<Pair> {
        if self.options.unique {
            entries_of(view.table(self.table_name_spec()))
        } else {
            view.multimap(self.table_name_spec())
        }
    }

    /// The entries of the index that `query` is answered from: those with a
    /// key in the planned range, in ascending order.
    pub fn scan<R: ReadOperations>(&self, tx: &R, query: &Query) -> (r: Result<
        Vec<R::Item>,
        DbError,
    >)
        requires
            self.named(),
        ensures
            match r {
                Ok(items) => is_scan(self.entries(view_of(*tx)), self.plan_spec(query), pairs(items@)),
                Err(e) => e is KVError,
            },
    {
        let range = self.plan(query);
        let table_name = self.table_name();
        let scanned = if self.options.unique {
            tx.range(table_name.as_str(), &range)
        } else {
            tx.range_multimap(table_name.as_str(), &range)
        };
        match scanned {
            Ok(items) => Ok(items),
            Err(error) => Err(DbError::KVError(error)),
        }
    }

    /// The stored form of the document that an entry of the index stands
    /// for, if the store has it: the value of the entry, in the primary
    /// index; what the table of the collection holds under that value, in
    /// another.
    pub open spec fn stored_spec(&self, view: StoreView, value: Seq<u8>) -> Option<Seq<u8>> {
        if self.options.primary {
            Some(value)
        } else if view.table(self.collection_name@).dom().contains(value) {
            Some(view.table(self.collection_name@)[value])
        } else {
            None
        }
    }

    /// What an entry of the index with the value `value` contributes to the
    /// answer to `query`: the document it stands for, where that matches the
    /// query; nothing, where it does not; an error, where the document is
    /// missing or unreadable, or where the store fails.
    pub open spec fn selects(
        &self,
        view: StoreView,
        query: &Query,
        value: Seq<u8>,
        outcome: Option<Result<Document, DbError>>,
    ) -> bool {
        if outcome matches Some(Err(DbError::KVError(_))) {
            !self.options.primary
        } else {
            match self.stored_spec(view, value) {
                None => outcome matches Some(Err(DbError::DanglingIndexEntry)),
                Some(bytes) => match DocumentView::decoding(bytes) {
                    None => outcome matches Some(Err(DbError::CorruptRecord)),
                    Some(doc) => if query.admits(doc) {
                        outcome matches Some(Ok(found)) && found@ == doc
                    } else {
                        outcome is None
                    },
                },
            }
        }
    }

    /// What an entry of the index with the value `value` contributes to the
    /// answer to `query`.
    pub fn select<R: ReadOperations>(&self, tx: &R, query: &Query, value: &[u8]) -> (outcome: Option<
        Result<Document, DbError>,
    >)
        requires
            self.named(),
        ensures
            self.selects(view_of(*tx), query, value@, outcome),
    {
        let loaded: Vec<u8>;
        let bytes: &[u8] = if self.options.primary {
            value
        } else {
            match tx.get(self.collection_name.as_str(), value) {
                Ok(Some(found)) => {
                    loaded = found;
                    loaded.as_slice()
                },
                Ok(None) => {
                    return Some(Err(DbError::DanglingIndexEntry));
                },
                Err(error) => {
                    return Some(Err(DbError::KVError(error)));
                },
            }
        };
        match Document::decode(bytes) {
            None => Some(Err(DbError::CorruptRecord)),
            Some(doc) => if doc.matches(query) {
                Some(Ok(doc))
            } else {
                None
            },
        }
    }

    /// Whether `results` answers `query` from the index: it holds, in the
    /// order of the scan, what each scanned entry contributes.
    pub open spec fn answers(
        &self,
        view: StoreView,
        query: &Query,
        results: Seq<Result<Document, DbError>>,
    ) -> bool {
        exists|items: Seq<Pair>, outcomes: Seq<Option<Result<Document, DbError>>>|
            {
                &&& is_scan(self.entries(view), self.plan_spec(query), items)
                &&& outcomes.len() == items.len()
                &&& forall|i: int|
                    0 <= i < items.len() ==> self.selects(
                        view,
                        query,
                        items[i].1,
                        #[trigger] outcomes[i],
                    )
                &&& results == kept(outcomes)
            }
    }

    /// Answer `query` from the index: scan the planned range, load the
    /// document of each entry, and keep those that match the query. An entry
    /// whose document cannot be had yields an error in its place.
    pub fn query<R: ReadOperations>(&self, tx: &R, query: &Query) -> (r: Result<
        Vec<Result<Document, DbError>>,
        DbError,
    >)
        requires
            self.named(),
        ensures
            match r {
                Ok(results) => self.answers(view_of(*tx), query, results@),
                Err(e) => e is KVError,
            },
    {
        let items = self.scan(tx, query)?;
        let mut results: Vec<Result<Document, DbError>> = Vec::new();
        let ghost mut outcomes: Seq<Option<Result<Document, DbError>>> = Seq::empty();
        let mut i: usize = 0;
        while i < items.len()
            invariant
                self.named(),
                i <= items.len(),
                outcomes.len() == i,
                forall|j: int|
                    0 <= j < i ==> self.selects(
                        view_of(*tx),
                        query,
                        pairs(items@)[j].1,
                        #[trigger] outcomes[j],
                    ),
                results@ == kept(outcomes),
            decreases items.len() - i,
        {
            let outcome = self.select(tx, query, items[i].value());
            proof {
                assert(outcomes.push(outcome).drop_last() =~= outcomes);
                outcomes = outcomes.push(outcome);
            }
            match outcome {
                Some(result) => {
                    results.push(result);
                },
                None => {},
            }
            i += 1;
        }
        proof {
            assert(self.answers(view_of(*tx), query, results@)) by {
                let scanned = pairs(items@);
                assert(is_scan(self.entries(view_of(*tx)), self.plan_spec(query), scanned));
                assert(outcomes.len() == scanned.len());
                assert forall|i: int| 0 <= i < scanned.len() implies self.selects(
                    view_of(*tx),
                    query,
                    scanned[i].1,
                    #[trigger] outcomes[i],
                ) by {}
            }
        }
        Ok(results)
    }

    /// The range of keys that the index answers `query` from.
    ///
    /// The fields of the index are walked in order. A field constrained to
    /// one value extends both ends of the range by that value. A field
    /// constrained to a range extends each end by the bound given for it,
    /// and ends the walk. An unconstrained field of fixed width extends the
    /// ends by its smallest and its largest encoding. Any other field ends
    /// the walk. The upper end is closed by the upper-inclusive byte, so
    /// that the range holds the keys that continue it.
    pub open spec fn plan_spec(&self, query: &Query) -> ByteRange {
        self.plan_from(query, 0, PlanState::start())
    }

    /// The range that the walk arrives at from the field at position `i`
    /// and the state `state`.
    pub open spec fn plan_from(&self, query: &Query, i: int, state: PlanState) -> ByteRange
        decreases self.field_names@.len() - i,
    {
        if i < 0 || i >= self.field_names@.len() {
            state.range()
        } else {
            let field = self.field_names@[i];
            match query.param(field.name@) {
                Some(Param::Eq(v)) => self.plan_from(query, i + 1, state.extended(v@, v@)),
                Some(Param::Range(r)) => state.bounded(r@).range(),
                Some(_) => state.range(),
                None => match field.stats.fixed_width {
                    Some(w) => self.plan_from(
                        query,
                        i + 1,
                        state.extended(repeated(0, w as nat), repeated(0xff, w as nat)),
                    ),
                    None => state.range(),
                },
            }
        }
    }

    /// The range of keys that the index answers `query` from.
    pub fn plan(&self, query: &Query) -> (range: GeneralRange<Vec<u8>>)
        ensures
            range@ == self.plan_spec(query),
    {
        let mut min_key = LexicographicKey::default();
        let mut max_key = LexicographicKey::default();
        let mut min_bound: Bound<Vec<u8>> = Bound::Unbounded;
        let mut max_bound: Bound<Vec<u8>> = Bound::Unbounded;
        let mut i: usize = 0;
        while i < self.field_names.len()
            invariant
                i <= self.field_names.len(),
                self.plan_spec(query) == self.plan_from(
                    query,
                    i as int,
                    PlanState {
                        min_key: min_key@,
                        max_key: max_key@,
                        min_bound: bound_bytes(min_bound),
                        max_bound: bound_bytes(max_bound),
                    },
                ),
            decreases self.field_names.len() - i,
        {
            let field = &self.field_names[i];
            match query.get(field.name.as_str()) {
                Some(Param::Eq(v)) => {
                    min_key.append_key_slice(v.as_slice());
                    max_key.append_key_slice(v.as_slice());
                    min_bound = Bound::Included(min_key.to_vec());
                    max_bound = Bound::Included(closed(&max_key));
                },
                Some(Param::Range(r)) => {
                    match &r.0 {
                        Bound::Unbounded => {},
                        Bound::Included(v) | Bound::Excluded(v) => {
                            min_key.append_key_slice(v.as_slice());
                            min_bound = Bound::Included(min_key.take());
                        },
                    }
                    match &r.1 {
                        Bound::Unbounded => {},
                        Bound::Included(v) | Bound::Excluded(v) => {
                            max_key.append_key_slice(v.as_slice());
                            max_key.append_upper_inclusive_byte();
                            max_bound = Bound::Included(max_key.take());
                        },
                    }
                    return GeneralRange(min_bound, max_bound);
                },
                Some(_) => {
                    return GeneralRange(min_bound, max_bound);
                },
                None => {
                    match field.stats.fixed_width {
                        Some(width) => {
                            let min = filled(0, width as usize);
                            let max = filled(0xff, width as usize);
                            min_key.append_key_slice(min.as_slice());
                            max_key.append_key_slice(max.as_slice());
                            min_bound = Bound::Included(min_key.to_vec());
                            max_bound = Bound::Included(closed(&max_key));
                        },
                        None => {
                            return GeneralRange(min_bound, max_bound);
                        },
                    }
                },
            }
            i += 1;
        }
        GeneralRange(min_bound, max_bound)
    }

    /// How well the index serves `query`: the higher, the fewer keys are
    /// scanned. Zero stands for a scan of the whole table.
    ///
    /// The fields of the index are walked in order. Each constrained field
    /// adds one to the score and then multiplies it by the factor of its
    /// constraint. A range, an inequality or an exclusion ends the walk, and
    /// before the last field it costs the index its full prefix. An
    /// unconstrained field of variable width ends the walk and costs the
    /// full prefix. An index that keeps its full prefix has its score
    /// multiplied once more. All arithmetic saturates.
    pub open spec fn score_spec(&self, query: &Query) -> int {
        self.score_from(query, 0, 0, true)
    }

    /// The score that the walk arrives at from the field at position `i`.
    pub open spec fn score_from(&self, query: &Query, i: int, score: int, full: bool) -> int
        decreases self.field_names@.len() - i,
    {
        if i < 0 || i >= self.field_names@.len() {
            finished(score, full)
        } else {
            let field = self.field_names@[i];
            let last = i == self.field_names@.len() - 1;
            match query.param(field.name@) {
                Some(p) => {
                    let raised = sat_mul(sat_add(score, 1), factor(p));
                    if ends_walk(p) {
                        finished(raised, full && last)
                    } else {
                        self.score_from(query, i + 1, raised, full)
                    }
                },
                None => if field.stats.fixed_width is Some {
                    self.score_from(query, i + 1, score, full)
                } else {
                    finished(score, false)
                },
            }
        }
    }

    /// How well the index serves `query`.
    pub fn query_compat(&self, query: &Query) -> (score: usize)
        ensures
            score == self.score_spec(query),
    {
        let mut is_full_prefix = true;
        let mut score: usize = 0;
        let mut i: usize = 0;
        while i < self.field_names.len()
            invariant
                i <= self.field_names.len(),
                self.score_spec(query) == self.score_from(
                    query,
                    i as int,
                    score as int,
                    is_full_prefix,
                ),
            decreases self.field_names.len() - i,
        {
            let field = &self.field_names[i];
            let is_last_field = i == self.field_names.len() - 1;
            match query.get(field.name.as_str()) {
                Some(param) => {
                    score = score.saturating_add(1);
                    match param {
                        Param::Eq(_) => {
                            score = times(score, 10);
                        },
                        Param::In(_) => {
                            score = times(score, 8);
                        },
                        Param::Range(_) => {
                            score = times(score, 5);
                            return finish(score, is_full_prefix && is_last_field);
                        },
                        Param::Neq(_) => {
                            score = times(score, 2);
                            return finish(score, is_full_prefix && is_last_field);
                        },
                        Param::Nin(_) => {
                            score = times(score, 2);
                            return finish(score, is_full_prefix && is_last_field);
                        },
                    }
                },
                None => {
                    if field.stats.fixed_width.is_none() {
                        return finish(score, false);
                    }
                },
            }
            i += 1;
        }
        finish(score, is_full_prefix)
    }
}

/// The state of the walk over the fields of an index: the keys built so far
/// for the two ends of the range, and the two ends.
pub struct PlanState {
    pub min_key: Seq<u8>,
    pub max_key: Seq<u8>,
    pub min_bound: Bound<Seq<u8>>,
    pub max_bound: Bound<Seq<u8>>,
}

impl PlanState {
    /// The state before the first field: no bound on either end.
    pub open spec fn start() -> PlanState {
        PlanState {
            min_key: Seq::empty(),
            max_key: Seq::empty(),
            min_bound: Bound::Unbounded,
            max_bound: Bound::Unbounded,
        }
    }

    /// The range between the two ends.
    pub open spec fn range(self) -> ByteRange {
        ByteRange { start: self.min_bound, end: self.max_bound }
    }

    /// The state after a field that lies between `low` and `high`.
    pub open spec fn extended(self, low: Seq<u8>, high: Seq<u8>) -> PlanState {
        let min_key = joined(self.min_key, low);
        let max_key = joined(self.max_key, high);
        PlanState {
            min_key,
            max_key,
            min_bound: Bound::Included(min_key),
            max_bound: Bound::Included(max_key.push(UPPER_INCLUSIVE)),
        }
    }

    /// The state after a field that is constrained to the range `r`. An end
    /// that `r` leaves open stays as it is. An end that `r` excludes is
    /// included: the key may go on behind the field.
    pub open spec fn bounded(self, r: ByteRange) -> PlanState {
        PlanState {
            min_key: self.min_key,
            max_key: self.max_key,
            min_bound: match r.start {
                Bound::Unbounded => self.min_bound,
                Bound::Included(v) | Bound::Excluded(v) => Bound::Included(joined(self.min_key, v)),
            },
            max_bound: match r.end {
                Bound::Unbounded => self.max_bound,
                Bound::Included(v) | Bound::Excluded(v) => Bound::Included(
                    joined(self.max_key, v).push(UPPER_INCLUSIVE),
                ),
            },
        }
    }
}

/// What is left of `outcomes` without the entries that contribute nothing.
pub open spec fn kept<T>(outcomes: Seq<Option<T>>) -> Seq<T>
    decreases outcomes.len(),
{
    if outcomes.len() == 0 {
        Seq::empty()
    } else {
        match outcomes.last() {
            Some(x) => kept(outcomes.drop_last()).push(x),
            None => kept(outcomes.drop_last()),
        }
    }
}

/// The score at the end of the walk.
pub open spec fn finished(score: int, full: bool) -> int {
    if full {
        sat_mul(score, FULL_PREFIX_FACTOR as int)
    } else {
        score
    }
}

/// The key `key`, closed by the upper-inclusive byte.
fn closed(key: &LexicographicKey) -> (bytes: Vec<u8>)
    ensures
        bytes@ == key@.push(UPPER_INCLUSIVE),
{
    let mut bytes = key.to_vec();
    bytes.push(UPPER_INCLUSIVE);
    bytes
}

/// Saturating multiplication.
fn times(a: usize, b: usize) -> (r: usize)
    ensures
        r == sat_mul(a as int, b as int),
{
    match a.checked_mul(b) {
        Some(r) => r,
        None => usize::MAX,
    }
}

/// The score at the end of the walk.
fn finish(score: usize, full: bool) -> (r: usize)
    ensures
        r == finished(score as int, full),
{
    if full {
        times(score, FULL_PREFIX_FACTOR)
    } else {
        score
    }
}

/// The names of the fields behind their underscores are at least as many
/// characters as there are fields.
pub proof fn lemma_underscored_length(fields: Seq<IndexField>, upto: int)
    requires
        0 <= upto,
    ensures
        underscored(fields, upto).len() >= upto,
    decreases upto,
{
    reveal_strlit("_");
    if upto > 0 {
        lemma_underscored_length(fields, upto - 1);
    }
}

/// The table of a secondary index with a field is not the table of its
/// collection.
pub proof fn lemma_secondary_table_differs(index: Index)
    requires
        !index.options.primary,
        index.field_names@.len() > 0,
    ensures
        index.table_name_spec() != index.collection_name@,
{
    lemma_underscored_length(index.field_names@, index.field_names@.len() as int);
    assert(index.table_name_spec().len() > index.collection_name@.len());
}

/// Where a document lacks one of the fields, it has no key under any longer
/// list of fields either.
pub proof fn lemma_key_stays_absent(doc: DocumentView, fields: Seq<IndexField>, i: int, j: int)
    requires
        0 <= i <= j,
        key_upto(doc, fields, i) is None,
    ensures
        key_upto(doc, fields, j) is None,
    decreases j - i,
{
    if i < j {
        lemma_key_stays_absent(doc, fields, i, j - 1);
    }
}

/// Whether `a` is a strict prefix of `b`.
pub open spec fn is_strict_prefix(a: Seq<u8>, b: Seq<u8>) -> bool {
    a.len() < b.len() && b.take(a.len() as int) == a
}

/// Between byte strings of one length, the smaller stays the smaller
/// however the two are continued.
pub proof fn lemma_lt_of_one_length_extends(a: Seq<u8>, b: Seq<u8>, x: Seq<u8>, y: Seq<u8>)
    requires
        a.len() == b.len(),
        lex_lt(a, b),
    ensures
        lex_lt(a + x, b + y),
{
    let p = choose|p: int| lex_lt_at(a, b, p);
    assert(lex_lt_at(a + x, b + y, p));
}

/// A byte string that sorts no later than another sorts no later than any
/// continuation of the other.
pub proof fn lemma_le_continued(s: Seq<u8>, v: Seq<u8>, tail: Seq<u8>)
    requires
        lex_le(s, v),
    ensures
        lex_le(s, v + tail),
{
    if s == v {
        if tail.len() > 0 {
            lemma_prefix_sorts_first(v, tail);
        } else {
            assert(v + tail =~= v);
        }
    } else {
        let p = choose|p: int| lex_lt_at(s, v, p);
        assert(lex_lt_at(s, v + tail, p));
    }
}

/// A continuation of a byte string at a separator sorts before the byte
/// string closed by the upper-inclusive byte.
pub proof fn lemma_continued_below_closed(k: Seq<u8>, tail: Seq<u8>)
    requires
        tail.len() == 0 || tail[0] == SEPARATOR,
    ensures
        lex_lt(k + tail, k.push(UPPER_INCLUSIVE)),
{
    assert(lex_lt_at(k + tail, k.push(UPPER_INCLUSIVE), k.len() as int));
}

impl Index {
    /// Whether `doc` has every field of the index, with an encoding of at
    /// least one byte, and of the width of the field where the field has
    /// one.
    pub open spec fn conforms(&self, doc: DocumentView) -> bool {
        forall|i: int|
            0 <= i < self.field_names@.len() ==> {
                let field = #[trigger] self.field_names@[i];
                &&& doc.field(field.name@) matches Some(value) && value.len() > 0
                &&& field.stats.fixed_width matches Some(w) ==> doc.field(field.name@)->0.len() == w
            }
    }

    /// Whether no value of `doc` is a strict prefix of the upper end of the
    /// range that `query` constrains its field to. Encodings of one width
    /// are never strict prefixes of each other, nor are the encodings of
    /// strings without a zero byte.
    pub open spec fn ends_are_prefix_free(&self, query: &Query, doc: DocumentView) -> bool {
        forall|i: int|
            0 <= i < self.field_names@.len() ==> match query.param(
                (#[trigger] self.field_names@[i]).name@,
            ) {
                Some(Param::Range(r)) => match r@.end {
                    Bound::Included(e) | Bound::Excluded(e) => !is_strict_prefix(
                        doc.field(self.field_names@[i].name@)->0,
                        e,
                    ),
                    Bound::Unbounded => true,
                },
                _ => true,
            }
    }

    /// A conforming document has a key under every prefix of the fields.
    pub proof fn lemma_conforming_has_key(&self, doc: DocumentView, upto: int)
        requires
            self.conforms(doc),
            0 <= upto <= self.field_names@.len(),
        ensures
            key_upto(doc, self.field_names@, upto) is Some,
            upto > 0 ==> key_upto(doc, self.field_names@, upto)->0.len() > 0,
        decreases upto,
    {
        if upto > 0 {
            self.lemma_conforming_has_key(doc, upto - 1);
            assert(doc.field(self.field_names@[upto - 1].name@) is Some);
        }
    }

    /// The key of a conforming document continues each of its prefixes at
    /// a separator.
    pub proof fn lemma_key_continues(&self, doc: DocumentView, i: int, j: int)
        requires
            self.conforms(doc),
            0 < i <= j <= self.field_names@.len(),
        ensures
            exists|tail: Seq<u8>|
                #[trigger] key_upto(doc, self.field_names@, j) == Some(
                    key_upto(doc, self.field_names@, i)->0 + tail,
                ) && (tail.len() == 0 || tail[0] == SEPARATOR),
        decreases j - i,
    {
        self.lemma_conforming_has_key(doc, i);
        let prefix = key_upto(doc, self.field_names@, i)->0;
        if i == j {
            let tail = Seq::<u8>::empty();
            assert(prefix + tail =~= prefix);
            assert(key_upto(doc, self.field_names@, j) == Some(prefix + tail));
        } else {
            self.lemma_key_continues(doc, i, j - 1);
            self.lemma_conforming_has_key(doc, j - 1);
            let before = choose|tail: Seq<u8>|
                #[trigger] key_upto(doc, self.field_names@, j - 1) == Some(prefix + tail) && (
                tail.len() == 0 || tail[0] == SEPARATOR);
            let value = doc.field(self.field_names@[j - 1].name@)->0;
            let tail = before.push(SEPARATOR) + value;
            assert((prefix + before).push(SEPARATOR) + value =~= prefix + tail);
            assert(key_upto(doc, self.field_names@, j) == Some(prefix + tail));
        }
    }

    /// A query that a document meets constrains each of its fields to the
    /// value of the document.
    pub proof fn lemma_admitted_field(query: &Query, doc: DocumentView, name: Seq<char>)
        requires
            query.admits(doc),
            query.param(name) is Some,
        ensures
            doc.field(name) matches Some(value) && query.param(name)->0.test_spec(value),
    {
        query.lemma_position(name, 0);
        let position = query.position_from(name, 0)->0;
        assert(query.constraints@[position].field@ == name);
    }

    /// The range that is planned from the field at position `i` on holds
    /// the key of `doc`, where what is planned so far lies about the key
    /// of `doc` so far.
    proof fn lemma_plan_from_covers(
        &self,
        query: &Query,
        doc: DocumentView,
        i: int,
        state: PlanState,
    )
        requires
            query.admits(doc),
            self.conforms(doc),
            self.ends_are_prefix_free(query, doc),
            0 <= i <= self.field_names@.len(),
            state.min_key.len() == key_upto(doc, self.field_names@, i)->0.len(),
            state.max_key.len() == key_upto(doc, self.field_names@, i)->0.len(),
            lex_le(state.min_key, key_upto(doc, self.field_names@, i)->0),
            lex_le(key_upto(doc, self.field_names@, i)->0, state.max_key),
            if i == 0 {
                state == PlanState::start()
            } else {
                state.min_bound == Bound::Included(state.min_key) && state.max_bound
                    == Bound::Included(state.max_key.push(UPPER_INCLUSIVE))
            },
        ensures
            self.plan_from(query, i, state).contains(self.key_spec(doc)->0),
        decreases self.field_names@.len() - i,
    {
        let n = self.field_names@.len() as int;
        let fields = self.field_names@;
        self.lemma_conforming_has_key(doc, i);
        self.lemma_conforming_has_key(doc, n);
        let so_far = key_upto(doc, fields, i)->0;
        let key = self.key_spec(doc)->0;
        // What lies about the key so far lies about the key: this settles
        // every case in which the walk ends here.
        if i > 0 {
            self.lemma_key_continues(doc, i, n);
            let tail = choose|tail: Seq<u8>|
                #[trigger] key_upto(doc, fields, n) == Some(so_far + tail) && (tail.len() == 0
                    || tail[0] == SEPARATOR);
            if state.min_key == so_far {
                lemma_le_continued(state.min_key, so_far, tail);
            } else {
                lemma_lt_of_one_length_extends(state.min_key, so_far, Seq::empty(), tail);
                assert(state.min_key + Seq::<u8>::empty() =~= state.min_key);
            }
            if so_far == state.max_key {
                lemma_continued_below_closed(so_far, tail);
            } else {
                lemma_lt_of_one_length_extends(so_far, state.max_key, tail, seq![UPPER_INCLUSIVE]);
                assert(state.max_key + seq![UPPER_INCLUSIVE] =~= state.max_key.push(UPPER_INCLUSIVE));
            }
            assert(state.range().contains(key));
        } else {
            assert(state.range().contains(key));
        }
        if i < n {
            let field = fields[i];
            let value = doc.field(field.name@)->0;
            assert(doc.field(field.name@) is Some && value.len() > 0);
            let next = joined(so_far, value);
            assert(key_upto(doc, fields, i + 1) == Some(next));
            self.lemma_conforming_has_key(doc, i + 1);
            self.lemma_key_continues(doc, i + 1, n);
            let rest = choose|tail: Seq<u8>|
                #[trigger] key_upto(doc, fields, n) == Some(next + tail) && (tail.len() == 0
                    || tail[0] == SEPARATOR);
            match query.param(field.name@) {
                Some(Param::Eq(v)) => {
                    Self::lemma_admitted_field(query, doc, field.name@);
                    assert(v@ == value);
                    let after = state.extended(value, value);
                    lemma_joined_keeps_order(state.min_key, so_far, value, value);
                    lemma_joined_keeps_order(so_far, state.max_key, value, value);
                    self.lemma_plan_from_covers(query, doc, i + 1, after);
                },
                Some(Param::Range(r)) => {
                    Self::lemma_admitted_field(query, doc, field.name@);
                    let planned = state.bounded(r@).range();
                    match r@.start {
                        Bound::Unbounded => {},
                        Bound::Included(s) | Bound::Excluded(s) => {
                            assert(lex_le(s, value));
                            lemma_joined_keeps_order(state.min_key, so_far, s, value);
                            lemma_le_continued(joined(state.min_key, s), next, rest);
                        },
                    }
                    match r@.end {
                        Bound::Unbounded => {},
                        Bound::Included(e) | Bound::Excluded(e) => {
                            assert(lex_le(value, e));
                            assert(!is_strict_prefix(value, e));
                            lemma_closed_end_covers(so_far, state.max_key, value, e, rest);
                        },
                    }
                    assert(planned.contains(key));
                },
                Some(_) => {},
                None => {
                    match field.stats.fixed_width {
                        Some(w) => {
                            let low = repeated(0, w as nat);
                            let high = repeated(0xff, w as nat);
                            crate::lexicographic::lemma_pointwise_le(low, value);
                            crate::lexicographic::lemma_pointwise_le(value, high);
                            let after = state.extended(low, high);
                            lemma_joined_keeps_order(state.min_key, so_far, low, value);
                            lemma_joined_keeps_order(so_far, state.max_key, value, high);
                            self.lemma_plan_from_covers(query, doc, i + 1, after);
                        },
                        None => {},
                    }
                },
            }
        }
    }

    /// The planner is sound: the range that is planned for a query holds
    /// the key of every conforming document that meets the query. A scan
    /// of the planned range passes over no document that the query asks
    /// for.
    ///
    /// This holds where no value of the document is a strict prefix of the
    /// upper end of the range that the query constrains its field to.
    pub proof fn lemma_plan_covers(&self, query: &Query, doc: DocumentView)
        requires
            query.admits(doc),
            self.conforms(doc),
            self.ends_are_prefix_free(query, doc),
        ensures
            self.key_spec(doc) is Some,
            self.plan_spec(query).contains(self.key_spec(doc)->0),
    {
        self.lemma_conforming_has_key(doc, self.field_names@.len() as int);
        self.lemma_plan_from_covers(query, doc, 0, PlanState::start());
    }
}

/// Joining keeps the order: where one key of a length sorts no later than
/// another of that length, and one value sorts no later than another of
/// its length or the keys differ, the first key joined with the first
/// value sorts no later than the second key joined with the second value.
pub proof fn lemma_joined_keeps_order(a: Seq<u8>, b: Seq<u8>, x: Seq<u8>, y: Seq<u8>)
    requires
        a.len() == b.len(),
        lex_le(a, b),
        lex_le(x, y),
    ensures
        lex_le(joined(a, x), joined(b, y)),
        x.len() == y.len() ==> joined(a, x).len() == joined(b, y).len(),
{
    if a == b {
        if a.len() > 0 {
            if x != y {
                crate::order::lemma_lex_common_front(a.push(SEPARATOR), x, y);
            }
        }
    } else {
        assert(a.len() > 0);
        lemma_lt_of_one_length_extends(a, b, seq![SEPARATOR] + x, seq![SEPARATOR] + y);
        assert(a + (seq![SEPARATOR] + x) =~= a.push(SEPARATOR) + x);
        assert(b + (seq![SEPARATOR] + y) =~= b.push(SEPARATOR) + y);
    }
}

/// The closed upper end of a range covers the keys whose value lies in
/// the range: where the key so far sorts no later than the upper key so
/// far, and the value sorts no later than the end of the range without
/// being a strict prefix of it, the key, however it continues at a
/// separator, sorts no later than the upper key joined with the end and
/// closed.
pub proof fn lemma_closed_end_covers(
    so_far: Seq<u8>,
    max_key: Seq<u8>,
    value: Seq<u8>,
    end: Seq<u8>,
    rest: Seq<u8>,
)
    requires
        so_far.len() == max_key.len(),
        lex_le(so_far, max_key),
        lex_le(value, end),
        !is_strict_prefix(value, end),
        rest.len() == 0 || rest[0] == SEPARATOR,
    ensures
        lex_le(joined(so_far, value) + rest, joined(max_key, end).push(UPPER_INCLUSIVE)),
{
    let key = joined(so_far, value) + rest;
    let closed = joined(max_key, end).push(UPPER_INCLUSIVE);
    if so_far != max_key {
        lemma_lt_of_one_length_extends(
            so_far,
            max_key,
            seq![SEPARATOR] + value + rest,
            seq![SEPARATOR] + end + seq![UPPER_INCLUSIVE],
        );
        assert(so_far + (seq![SEPARATOR] + value + rest) =~= key);
        assert(max_key + (seq![SEPARATOR] + end + seq![UPPER_INCLUSIVE]) =~= closed);
    } else if value == end {
        lemma_continued_below_closed(joined(so_far, value), rest);
    } else {
        let p = choose|p: int| lex_lt_at(value, end, p);
        if p == value.len() {
            assert(end.take(value.len() as int) =~= value);
        }
        let q = if so_far.len() > 0 {
            so_far.len() + 1 + p
        } else {
            p
        };
        assert(lex_lt_at(key, closed, q));
    }
}

} // verus!
