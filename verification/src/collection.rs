//! Collections: named sets of documents with one primary index and any
//! number of secondary indexes.

use vstd::prelude::*;
use crate::document::{str_eq, Document, DocumentView, Query};
use crate::error::DbError;
use crate::index::{Index, IndexField, IndexOptions};
use crate::kv::{lemma_same_view, view_of, ReadOperations, StoreView, WriteOperations, WriteTx, KV};

verus! {

/// A collection of documents in a store.
#[derive(Debug)]
pub struct Collection {
    /// The name of the collection, which is the name of its table.
    pub name: Option<String>,
    /// The secondary indexes.
    pub indices: Vec<Index>,
    /// The primary index, whose table holds the documents.
    pub primary_key_index: Option<Index>,
}

impl Default for Collection {
    fn default() -> (c: Self)
        ensures
            c.name is None,
            c.primary_key_index is None,
            c.indices@ == Seq::<Index>::empty(),
    {
        Collection { name: None, indices: Vec::new(), primary_key_index: None }
    }
}

/// The table names of the first `upto` indexes.
pub open spec fn index_tables(indices: Seq<Index>, upto: int) -> Seq<Seq<char>> {
    Seq::new(upto as nat, |i: int| indices[i].table_name_spec())
}

/// Whether `name` occurs in `names`.
fn contains_name(names: &Vec<String>, name: &String) -> (r: bool)
    ensures
        r == exists|i: int| 0 <= i < names@.len() && (#[trigger] names@[i])@ == name@,
{
    let mut i: usize = 0;
    while i < names.len()
        invariant
            i <= names.len(),
            forall|j: int| 0 <= j < i ==> (#[trigger] names@[j])@ != name@,
        decreases names.len() - i,
    {
        if str_eq(names[i].as_str(), name.as_str()) {
            return true;
        }
        i += 1;
    }
    false
}

impl Collection {
    /// A collection that is yet to be given a name, a primary key and its
    /// indexes.
    pub fn new() -> (c: Self)
        ensures
            c.name is None,
            c.primary_key_index is None,
            c.indices@ == Seq::<Index>::empty(),
    {
        Collection { name: None, indices: Vec::new(), primary_key_index: None }
    }

    /// Whether a primary key has been set.
    pub fn has_primary_key(&self) -> (r: bool)
        ensures
            r == self.primary_key_index is Some,
    {
        self.primary_key_index.is_some()
    }

    /// Set the primary key: the fields that the primary index is over. The
    /// collection has a name by then, and has no primary key yet.
    pub fn set_primary_key(&mut self, fields: Vec<IndexField>) -> (r: Result<(), DbError>)
        ensures
            match r {
                Ok(_) => {
                    &&& old(self).primary_key_index is None
                    &&& old(self).name is Some
                    &&& final(self).name == old(self).name
                    &&& final(self).indices == old(self).indices
                    &&& final(self).primary_key_index matches Some(index)
                    &&& index.collection_name@ == old(self).name->0@
                    &&& index.field_names == fields
                    &&& index.options == (IndexOptions { unique: true, primary: true })
                },
                Err(e) => {
                    &&& e is InvalidSchema
                    &&& (old(self).primary_key_index is Some || old(self).name is None)
                    &&& *final(self) == *old(self)
                },
            },
    {
        if self.primary_key_index.is_some() {
            return Err(DbError::InvalidSchema);
        }
        let collection_name = match &self.name {
            Some(name) => name.clone(),
            None => {
                return Err(DbError::InvalidSchema);
            },
        };
        self.primary_key_index = Some(
            Index {
                collection_name,
                field_names: fields,
                options: IndexOptions { unique: true, primary: true },
            },
        );
        Ok(())
    }

    /// The primary index.
    pub fn primary_key_index(&self) -> (index: &Index)
        requires
            self.primary_key_index is Some,
        ensures
            *index == self.primary_key_index->0,
    {
        match &self.primary_key_index {
            Some(index) => index,
            None => vstd::pervasive::unreached(),
        }
    }

    /// Give the collection its name. A collection is named once, and not
    /// by the empty string, which names no table.
    pub fn set_name(&mut self, name: String) -> (r: Result<(), DbError>)
        ensures
            match r {
                Ok(_) => {
                    &&& old(self).name is None
                    &&& name@.len() > 0
                    &&& final(self).name == Some(name)
                    &&& final(self).indices == old(self).indices
                    &&& final(self).primary_key_index == old(self).primary_key_index
                },
                Err(e) => {
                    &&& e is InvalidSchema
                    &&& (old(self).name is Some || name@.len() == 0)
                    &&& *final(self) == *old(self)
                },
            },
    {
        if self.name.is_some() || name.as_str().is_empty() {
            return Err(DbError::InvalidSchema);
        }
        self.name = Some(name);
        Ok(())
    }

    /// Whether every table of the collection has a name: the collection
    /// and the collection of each of its indexes are not named by the
    /// empty string.
    pub open spec fn named(&self) -> bool {
        &&& self.name is Some ==> self.name->0@.len() > 0
        &&& self.primary_key_index is Some ==> self.primary_key_index->0.named()
        &&& forall|i: int| 0 <= i < self.indices@.len() ==> (#[trigger] self.indices@[i]).named()
    }

    /// The secondary indexes of the collection.
    pub fn indices(&self) -> (indices: &Vec<Index>)
        ensures
            *indices == self.indices,
    {
        &self.indices
    }

    /// Add a secondary index. An index without fields is refused.
    pub fn add_index(&mut self, index: Index) -> (r: Result<(), DbError>)
        ensures
            final(self).name == old(self).name,
            final(self).primary_key_index == old(self).primary_key_index,
            match r {
                Ok(_) => index.field_names@.len() > 0 && final(self).indices@ == old(
                    self,
                ).indices@.push(index),
                Err(e) => e is InvalidSchema && index.field_names@.len() == 0 && final(self).indices
                    == old(self).indices,
            },
    {
        if index.field_names.is_empty() {
            return Err(DbError::InvalidSchema);
        }
        self.indices.push(index);
        Ok(())
    }

    /// Whether the secondary indexes fit the collection: the collection has
    /// a name, and each index belongs to the collection, is not primary, has
    /// a field, and has a table of its own.
    pub open spec fn indices_fit(&self) -> bool {
        &&& self.name is Some
        &&& self.name->0@.len() > 0
        &&& forall|i: int|
            0 <= i < self.indices@.len() ==> {
                &&& (#[trigger] self.indices@[i]).collection_name@ == self.name->0@
                &&& !self.indices@[i].options.primary
                &&& self.indices@[i].field_names@.len() > 0
            }
        &&& forall|i: int, j: int|
            0 <= i < j < self.indices@.len() ==> (#[trigger] self.indices@[i]).table_name_spec() != (
            #[trigger] self.indices@[j]).table_name_spec()
    }

    /// Check the secondary indexes for consistency.
    pub fn construct_indices(&self) -> (r: Result<(), DbError>)
        ensures
            match r {
                Ok(_) => self.indices_fit(),
                Err(e) => e is InvalidSchema && !self.indices_fit(),
            },
    {
        let name = match &self.name {
            Some(name) => name,
            None => {
                return Err(DbError::InvalidSchema);
            },
        };
        if name.as_str().is_empty() {
            return Err(DbError::InvalidSchema);
        }
        let mut known: Vec<String> = Vec::new();
        let mut i: usize = 0;
        while i < self.indices.len()
            invariant
                i <= self.indices.len(),
                self.name == Some(*name),
                known@.len() == i,
                forall|j: int| 0 <= j < i ==> (#[trigger] known@[j])@ == self.indices@[j].table_name_spec(),
                forall|j: int|
                    0 <= j < i ==> {
                        &&& (#[trigger] self.indices@[j]).collection_name@ == name@
                        &&& !self.indices@[j].options.primary
                        &&& self.indices@[j].field_names@.len() > 0
                    },
                forall|j: int, k: int|
                    0 <= j < k < i ==> (#[trigger] self.indices@[j]).table_name_spec() != (
                    #[trigger] self.indices@[k]).table_name_spec(),
            decreases self.indices.len() - i,
        {
            let index = &self.indices[i];
            if !str_eq(index.collection_name.as_str(), name.as_str()) {
                return Err(DbError::InvalidSchema);
            }
            if index.options.primary {
                return Err(DbError::InvalidSchema);
            }
            if index.field_names.is_empty() {
                return Err(DbError::InvalidSchema);
            }
            let table_name = index.table_name();
            if contains_name(&known, &table_name) {
                proof {
                    let j = choose|j: int| 0 <= j < known@.len() && (#[trigger] known@[j])@ == table_name@;
                    assert(self.indices@[j].table_name_spec() == self.indices@[i as int].table_name_spec());
                }
                return Err(DbError::InvalidSchema);
            }
            proof {
                assert forall|j: int| 0 <= j < i implies (#[trigger] self.indices@[j]).table_name_spec()
                    != self.indices@[i as int].table_name_spec() by {
                    assert(known@[j]@ == self.indices@[j].table_name_spec());
                }
            }
            known.push(table_name);
            i += 1;
        }
        Ok(())
    }

    /// The names of the tables of the collection: its own, then those of its
    /// secondary indexes.
    pub fn table_names(&self) -> (names: Vec<String>)
        requires
            self.name is Some,
        ensures
            names@.len() == self.indices@.len() + 1,
            names@[0]@ == self.name->0@,
            forall|i: int|
                0 <= i < self.indices@.len() ==> (#[trigger] names@[i + 1])@
                    == self.indices@[i].table_name_spec(),
    {
        let mut names: Vec<String> = Vec::new();
        names.push(self.name().to_owned());
        let mut i: usize = 0;
        while i < self.indices.len()
            invariant
                i <= self.indices.len(),
                self.name is Some,
                names@.len() == i + 1,
                names@[0]@ == self.name->0@,
                forall|j: int|
                    0 <= j < i ==> (#[trigger] names@[j + 1])@ == self.indices@[j].table_name_spec(),
            decreases self.indices.len() - i,
        {
            names.push(self.indices[i].table_name());
            i += 1;
        }
        names
    }

    /// The name of the collection.
    pub fn name(&self) -> (name: &str)
        requires
            self.name is Some,
        ensures
            name@ == self.name->0@,
    {
        match &self.name {
            Some(name) => name.as_str(),
            None => vstd::pervasive::unreached(),
        }
    }

    /// What filing `doc` in the first `upto` secondary indexes makes of the
    /// contents `view`.
    pub open spec fn file_all(
        &self,
        view: StoreView,
        doc: DocumentView,
        primary_key: Seq<u8>,
        upto: int,
    ) -> Result<StoreView, DbError>
        decreases upto,
    {
        if upto <= 0 {
            Ok(view)
        } else {
            match self.file_all(view, doc, primary_key, upto - 1) {
                Err(e) => Err(e),
                Ok(filed) => self.indices@[upto - 1].file_spec(filed, doc, primary_key),
            }
        }
    }

    /// What inserting `doc` makes of the contents `view`: the contents with
    /// the document under its primary key in the table of the collection,
    /// and with its entry in every secondary index; or the reason why `doc`
    /// cannot be inserted.
    pub open spec fn insert_spec(&self, view: StoreView, doc: DocumentView) -> Result<
        StoreView,
        DbError,
    > {
        match self.primary_key_index {
            None => Err(DbError::InvalidSchema),
            Some(primary) => match primary.key_spec(doc) {
                None => Err(DbError::MissingField),
                Some(primary_key) => match primary.file_spec(view, doc, primary_key) {
                    Err(e) => Err(e),
                    Ok(stored) => self.file_all(
                        stored,
                        doc,
                        primary_key,
                        self.indices@.len() as int,
                    ),
                },
            },
        }
    }

    /// Where filing fails in one of the first indexes, it fails in the same
    /// way however many more indexes there are.
    pub proof fn lemma_file_all_fails(
        &self,
        view: StoreView,
        doc: DocumentView,
        primary_key: Seq<u8>,
        i: int,
        j: int,
    )
        requires
            0 <= i <= j,
            self.file_all(view, doc, primary_key, i) is Err,
        ensures
            self.file_all(view, doc, primary_key, j) == self.file_all(view, doc, primary_key, i),
        decreases j - i,
    {
        if i < j {
            self.lemma_file_all_fails(view, doc, primary_key, i, j - 1);
        }
    }

    /// File `doc` in the primary index and in every secondary index.
    fn insert_in<W: WriteOperations>(&self, tx: &mut W, doc: &Document) -> (r: Result<(), DbError>)
        requires
            self.named(),
        ensures
            final(tx).store() == old(tx).store(),
            match r {
                Ok(_) => self.insert_spec(view_of(*old(tx)), doc@) == Ok::<StoreView, DbError>(
                    view_of(*final(tx)),
                ),
                Err(DbError::KVError(_)) => true,
                Err(e) => self.insert_spec(view_of(*old(tx)), doc@) == Err::<StoreView, DbError>(e),
            },
    {
        let primary = match &self.primary_key_index {
            Some(primary) => primary,
            None => {
                return Err(DbError::InvalidSchema);
            },
        };
        let primary_key = match primary.key_of(doc) {
            Some(key) => key,
            None => {
                return Err(DbError::MissingField);
            },
        };
        primary.insert(tx, doc, primary_key.as_slice())?;
        let ghost stored = view_of(*tx);
        let mut i: usize = 0;
        while i < self.indices.len()
            invariant
                self.named(),
                i <= self.indices.len(),
                tx.store() == old(tx).store(),
                self.primary_key_index == Some(*primary),
                primary.key_spec(doc@) == Some(primary_key@),
                primary.file_spec(view_of(*old(tx)), doc@, primary_key@) == Ok::<StoreView, DbError>(
                    stored,
                ),
                self.file_all(stored, doc@, primary_key@, i as int) == Ok::<StoreView, DbError>(
                    view_of(*tx),
                ),
            decreases self.indices.len() - i,
        {
            match self.indices[i].insert(tx, doc, primary_key.as_slice()) {
                Ok(_) => {},
                Err(error) => {
                    proof {
                        if !(error is KVError) {
                            self.lemma_file_all_fails(
                                stored,
                                doc@,
                                primary_key@,
                                i + 1,
                                self.indices@.len() as int,
                            );
                        }
                    }
                    return Err(error);
                },
            }
            i += 1;
        }
        Ok(())
    }

    /// Insert a document: store it under its primary key and file it in
    /// every secondary index, in one transaction.
    ///
    /// A document whose primary key is taken, or whose key in a unique index
    /// is taken, is refused, and the store stays as it is. Where the store
    /// fails, the document is inserted in full or not at all.
    pub fn insert<K: KV>(&self, kv: &mut K, doc: &Document) -> (r: Result<(), DbError>)
        requires
            self.named(),
        ensures
            final(kv).store() == old(kv).store(),
            match r {
                Ok(_) => self.insert_spec(view_of(*old(kv)), doc@) == Ok::<StoreView, DbError>(
                    view_of(*final(kv)),
                ),
                Err(DbError::KVError(_)) => view_of(*final(kv)) == view_of(*old(kv))
                    || self.insert_spec(view_of(*old(kv)), doc@) == Ok::<StoreView, DbError>(
                    view_of(*final(kv)),
                ),
                Err(e) => self.insert_spec(view_of(*old(kv)), doc@) == Err::<StoreView, DbError>(e)
                    && view_of(*final(kv)) == view_of(*old(kv)),
            },
    {
        let mut tx = match kv.write_tx() {
            Ok(tx) => tx,
            Err(error) => {
                return Err(DbError::KVError(error));
            },
        };
        proof {
            lemma_same_view(tx, *kv);
        }
        match self.insert_in(&mut tx, doc) {
            Ok(_) => {},
            Err(error) => {
                let _ = tx.abort();
                return Err(error);
            },
        }
        let ghost filed = tx;
        match kv.commit(tx) {
            Ok(_) => {
                proof {
                    lemma_same_view(*kv, filed);
                }
                Ok(())
            },
            Err(error) => {
                proof {
                    if crate::kv::same_contents(*kv, filed) {
                        lemma_same_view(*kv, filed);
                    } else {
                        lemma_same_view(*kv, *old(kv));
                    }
                }
                Err(DbError::KVError(error))
            },
        }
    }

    /// The index that serves `query` best among the primary index and the
    /// first `upto` secondary indexes: the first of those with the highest
    /// score. `None` stands for the primary index.
    pub open spec fn best_upto(&self, query: &Query, upto: int) -> Option<int>
        decreases upto,
    {
        if upto <= 0 {
            None
        } else {
            let before = self.best_upto(query, upto - 1);
            if self.indices@[upto - 1].score_spec(query) > self.score_of(query, before) {
                Some(upto - 1)
            } else {
                before
            }
        }
    }

    /// The score of the index at `position`, where `None` stands for the
    /// primary index.
    pub open spec fn score_of(&self, query: &Query, position: Option<int>) -> int {
        match position {
            None => self.primary_key_index->0.score_spec(query),
            Some(i) => self.indices@[i].score_spec(query),
        }
    }

    /// The index at `position`, where `None` stands for the primary index.
    pub open spec fn index_at(&self, position: Option<int>) -> Index {
        match position {
            None => self.primary_key_index->0,
            Some(i) => self.indices@[i],
        }
    }

    /// The index that serves `query` best.
    pub open spec fn best_spec(&self, query: &Query) -> Index {
        self.index_at(self.best_upto(query, self.indices@.len() as int))
    }

    /// No index scores higher than the chosen one.
    pub proof fn lemma_best_is_highest(&self, query: &Query, upto: int)
        requires
            0 <= upto <= self.indices@.len(),
        ensures
            self.score_of(query, self.best_upto(query, upto)) >= self.score_of(query, None),
            forall|i: int|
                0 <= i < upto ==> self.score_of(query, self.best_upto(query, upto)) >= (
                #[trigger] self.indices@[i]).score_spec(query),
            self.best_upto(query, upto) matches Some(i) ==> 0 <= i < upto,
        decreases upto,
    {
        if upto > 0 {
            self.lemma_best_is_highest(query, upto - 1);
        }
    }

    /// The index that serves `query` best: the one with the highest score,
    /// and among several of those the primary index or else the first.
    pub fn best_index(&self, query: &Query) -> (index: &Index)
        requires
            self.primary_key_index is Some,
        ensures
            *index == self.best_spec(query),
    {
        let mut best: &Index = self.primary_key_index();
        let mut best_score = best.query_compat(query);
        let mut i: usize = 0;
        while i < self.indices.len()
            invariant
                i <= self.indices.len(),
                self.primary_key_index is Some,
                *best == self.index_at(self.best_upto(query, i as int)),
                best_score == self.score_of(query, self.best_upto(query, i as int)),
                self.best_upto(query, i as int) matches Some(k) ==> 0 <= k < i,
            decreases self.indices.len() - i,
        {
            let score = self.indices[i].query_compat(query);
            if score > best_score {
                best = &self.indices[i];
                best_score = score;
            }
            i += 1;
        }
        best
    }

    /// The documents that match `query`, in the order of the index that
    /// serves the query best. Where a document cannot be had, an error
    /// stands in its place.
    pub fn find_many<K: KV>(&self, kv: &K, query: &Query) -> (r: Result<
        Vec<Result<Document, DbError>>,
        DbError,
    >)
        requires
            self.named(),
            self.primary_key_index is Some,
        ensures
            match r {
                Ok(results) => self.best_spec(query).answers(view_of(*kv), query, results@),
                Err(e) => e is KVError,
            },
    {
        let index = self.best_index(query);
        proof {
            self.lemma_best_is_highest(query, self.indices@.len() as int);
        }
        let tx = match kv.read_tx() {
            Ok(tx) => tx,
            Err(error) => {
                return Err(DbError::KVError(error));
            },
        };
        proof {
            lemma_same_view(tx, *kv);
        }
        index.query(&tx, query)
    }

    /// Whether `first` is the first of the answers to `query` from the
    /// index that serves the query best, or tells that the store failed.
    pub open spec fn finds_first(
        &self,
        view: StoreView,
        query: &Query,
        first: Result<Option<Document>, DbError>,
    ) -> bool {
        (first is Err && first->Err_0 is KVError) || exists|results: Seq<Result<Document, DbError>>|
            #[trigger] self.best_spec(query).answers(view, query, results) && first_of(results, first)
    }

    /// The first of the documents that match `query`, in the order of the
    /// index that serves the query best; an error, where that document
    /// cannot be had.
    pub fn find_one<K: KV>(&self, kv: &K, query: &Query) -> (r: Result<Option<Document>, DbError>)
        requires
            self.named(),
            self.primary_key_index is Some,
        ensures
            self.finds_first(view_of(*kv), query, r),
    {
        let mut results = self.find_many(kv, query)?;
        let ghost all = results@;
        if results.len() == 0 {
            assert(first_of(all, Ok::<Option<Document>, DbError>(None)));
            return Ok(None);
        }
        let first = results.swap_remove(0);
        let r = match first {
            Ok(doc) => Ok(Some(doc)),
            Err(error) => Err(error),
        };
        assert(first_of(all, r));
        r
    }

    /// The contents `view` with the tables of the first `upto` secondary
    /// indexes emptied.
    pub open spec fn cleared(&self, view: StoreView, upto: int) -> StoreView
        decreases upto,
    {
        if upto <= 0 {
            view
        } else {
            let before = self.cleared(view, upto - 1);
            let index = self.indices@[upto - 1];
            if index.options.unique {
                before.with_table(index.table_name_spec(), Map::empty())
            } else {
                before.with_multimap(index.table_name_spec(), Set::empty())
            }
        }
    }

    /// What filing the documents of the first `upto` of `items` in every
    /// secondary index makes of the contents `view`. An item is a primary
    /// key and the stored form of its document.
    pub open spec fn refiled(&self, view: StoreView, items: Seq<(Seq<u8>, Seq<u8>)>, upto: int) -> Result<
        StoreView,
        DbError,
    >
        decreases upto,
    {
        if upto <= 0 {
            Ok(view)
        } else {
            match self.refiled(view, items, upto - 1) {
                Err(e) => Err(e),
                Ok(filed) => match DocumentView::decoding(items[upto - 1].1) {
                    None => Err(DbError::CorruptRecord),
                    Some(doc) => self.file_all(
                        filed,
                        doc,
                        items[upto - 1].0,
                        self.indices@.len() as int,
                    ),
                },
            }
        }
    }

    /// Whether rebuilding the secondary indexes of the contents `view` has
    /// the outcome `outcome`: the tables of the secondary indexes are
    /// emptied, and the documents of the collection are filed in them anew,
    /// in the order of their primary keys.
    pub open spec fn rebuilds(&self, view: StoreView, outcome: Result<StoreView, DbError>) -> bool {
        let emptied = self.cleared(view, self.indices@.len() as int);
        exists|items: Seq<(Seq<u8>, Seq<u8>)>|
            {
                &&& #[trigger] crate::kv::is_scan(
                    crate::kv::entries_of(emptied.table(self.name->0@)),
                    crate::query::ByteRange::full(),
                    items,
                )
                &&& outcome == self.refiled(emptied, items, items.len() as int)
            }
    }

    /// Where refiling fails at one of the first items, it fails in the same
    /// way however many more items there are.
    pub proof fn lemma_refiled_fails(
        &self,
        view: StoreView,
        items: Seq<(Seq<u8>, Seq<u8>)>,
        i: int,
        j: int,
    )
        requires
            0 <= i <= j,
            self.refiled(view, items, i) is Err,
        ensures
            self.refiled(view, items, j) == self.refiled(view, items, i),
        decreases j - i,
    {
        if i < j {
            self.lemma_refiled_fails(view, items, i, j - 1);
        }
    }

    /// Empty the tables of the secondary indexes.
    fn clear_in<W: WriteOperations>(&self, tx: &mut W) -> (r: Result<(), DbError>)
        requires
            self.named(),
        ensures
            final(tx).store() == old(tx).store(),
            match r {
                Ok(_) => view_of(*final(tx)) == self.cleared(
                    view_of(*old(tx)),
                    self.indices@.len() as int,
                ),
                Err(e) => e is KVError,
            },
    {
        let mut i: usize = 0;
        while i < self.indices.len()
            invariant
                self.named(),
                i <= self.indices.len(),
                tx.store() == old(tx).store(),
                view_of(*tx) == self.cleared(view_of(*old(tx)), i as int),
            decreases self.indices.len() - i,
        {
            let index = &self.indices[i];
            let table_name = index.table_name();
            let ghost before = *tx;
            let cleared = if index.options.unique {
                tx.clear(table_name.as_str())
            } else {
                tx.clear_multimap(table_name.as_str())
            };
            match cleared {
                Ok(_) => {
                    proof {
                        if index.options.unique {
                            crate::kv::lemma_view_with_table(before, *tx, table_name@);
                        } else {
                            crate::kv::lemma_view_with_multimap(before, *tx, table_name@);
                        }
                    }
                },
                Err(error) => {
                    return Err(DbError::KVError(error));
                },
            }
            i += 1;
        }
        Ok(())
    }

    /// Empty the tables of the secondary indexes and file every document of
    /// the collection in them anew.
    fn rebuild_in<W: WriteOperations>(&self, tx: &mut W) -> (r: Result<(), DbError>)
        requires
            self.named(),
            self.name is Some,
        ensures
            final(tx).store() == old(tx).store(),
            match r {
                Ok(_) => self.rebuilds(
                    view_of(*old(tx)),
                    Ok::<StoreView, DbError>(view_of(*final(tx))),
                ),
                Err(DbError::KVError(_)) => true,
                Err(e) => self.rebuilds(view_of(*old(tx)), Err::<StoreView, DbError>(e)),
            },
    {
        self.clear_in(tx)?;
        let ghost emptied = view_of(*tx);
        let full = crate::query::GeneralRange(std::ops::Bound::Unbounded, std::ops::Bound::Unbounded);
        let items = match tx.range(self.name(), &full) {
            Ok(items) => items,
            Err(error) => {
                return Err(DbError::KVError(error));
            },
        };
        let ghost scanned = crate::kv::pairs(items@);
        assert(crate::kv::is_scan(
            crate::kv::entries_of(emptied.table(self.name->0@)),
            crate::query::ByteRange::full(),
            scanned,
        ));
        let mut i: usize = 0;
        while i < items.len()
            invariant
                self.named(),
                i <= items.len(),
                tx.store() == old(tx).store(),
                scanned == crate::kv::pairs(items@),
                self.name is Some,
                emptied == self.cleared(view_of(*old(tx)), self.indices@.len() as int),
                crate::kv::is_scan(
                    crate::kv::entries_of(emptied.table(self.name->0@)),
                    crate::query::ByteRange::full(),
                    scanned,
                ),
                self.refiled(emptied, scanned, i as int) == Ok::<StoreView, DbError>(view_of(*tx)),
            decreases items.len() - i,
        {
            let ghost filed = view_of(*tx);
            let doc = match Document::decode(crate::kv::OpaqueItem::value(&items[i])) {
                Some(doc) => doc,
                None => {
                    proof {
                        self.lemma_refiled_fails(emptied, scanned, i + 1, scanned.len() as int);
                    }
                    return Err(DbError::CorruptRecord);
                },
            };
            let mut j: usize = 0;
            while j < self.indices.len()
                invariant
                self.named(),
                    j <= self.indices.len(),
                    i < items.len(),
                    tx.store() == old(tx).store(),
                    scanned == crate::kv::pairs(items@),
                    self.name is Some,
                    emptied == self.cleared(view_of(*old(tx)), self.indices@.len() as int),
                        crate::kv::is_scan(
                            crate::kv::entries_of(emptied.table(self.name->0@)),
                            crate::query::ByteRange::full(),
                            scanned,
                    ),

                    DocumentView::decoding(scanned[i as int].1) == Some(doc@),
                    self.refiled(emptied, scanned, i as int) == Ok::<StoreView, DbError>(filed),
                    self.file_all(filed, doc@, scanned[i as int].0, j as int) == Ok::<
                        StoreView,
                        DbError,
                    >(view_of(*tx)),
                decreases self.indices.len() - j,
            {
                match self.indices[j].insert(tx, &doc, crate::kv::OpaqueItem::key(&items[i])) {
                    Ok(_) => {},
                    Err(error) => {
                        proof {
                            if !(error is KVError) {
                                self.lemma_file_all_fails(
                                    filed,
                                    doc@,
                                    scanned[i as int].0,
                                    j + 1,
                                    self.indices@.len() as int,
                                );
                                self.lemma_refiled_fails(
                                    emptied,
                                    scanned,
                                    i + 1,
                                    scanned.len() as int,
                                );
                            }
                        }
                        return Err(error);
                    },
                }
                j += 1;
            }
            i += 1;
        }
        Ok(())
    }

    /// Rebuild the secondary indexes from the documents of the collection,
    /// in one transaction.
    ///
    /// Where a document cannot be read or filed, the store stays as it is.
    /// Where the store fails, the indexes are rebuilt in full or not at all.
    pub fn rebuild_indices<K: KV>(&self, kv: &mut K) -> (r: Result<(), DbError>)
        requires
            self.named(),
            self.name is Some,
        ensures
            final(kv).store() == old(kv).store(),
            match r {
                Ok(_) => self.rebuilds(
                    view_of(*old(kv)),
                    Ok::<StoreView, DbError>(view_of(*final(kv))),
                ),
                Err(DbError::KVError(_)) => view_of(*final(kv)) == view_of(*old(kv)) || self.rebuilds(
                    view_of(*old(kv)),
                    Ok::<StoreView, DbError>(view_of(*final(kv))),
                ),
                Err(e) => self.rebuilds(view_of(*old(kv)), Err::<StoreView, DbError>(e)) && view_of(
                    *final(kv),
                ) == view_of(*old(kv)),
            },
    {
        let mut tx = match kv.write_tx() {
            Ok(tx) => tx,
            Err(error) => {
                return Err(DbError::KVError(error));
            },
        };
        proof {
            lemma_same_view(tx, *kv);
        }
        match self.rebuild_in(&mut tx) {
            Ok(_) => {},
            Err(error) => {
                let _ = tx.abort();
                return Err(error);
            },
        }
        let ghost rebuilt = tx;
        match kv.commit(tx) {
            Ok(_) => {
                proof {
                    lemma_same_view(*kv, rebuilt);
                }
                Ok(())
            },
            Err(error) => {
                proof {
                    if crate::kv::same_contents(*kv, rebuilt) {
                        lemma_same_view(*kv, rebuilt);
                    } else {
                        lemma_same_view(*kv, *old(kv));
                    }
                }
                Err(DbError::KVError(error))
            },
        }
    }

    /// Whether the collection is set up: it has a name and a primary index
    /// in its own table, and its secondary indexes fit it.
    pub open spec fn wf(&self) -> bool {
        &&& self.name is Some
        &&& self.primary_key_index matches Some(primary) && primary.collection_name@ == self.name->0@
            && primary.options == (IndexOptions { unique: true, primary: true })
        &&& self.indices_fit()
    }

    /// Filing a document in the secondary indexes leaves the table of the
    /// collection as it is.
    pub proof fn lemma_file_all_keeps_documents(
        &self,
        view: StoreView,
        doc: DocumentView,
        primary_key: Seq<u8>,
        upto: int,
    )
        requires
            self.wf(),
            0 <= upto <= self.indices@.len(),
            self.file_all(view, doc, primary_key, upto) is Ok,
        ensures
            self.file_all(view, doc, primary_key, upto)->Ok_0.table(self.name->0@) == view.table(
                self.name->0@,
            ),
        decreases upto,
    {
        if upto > 0 {
            self.lemma_file_all_keeps_documents(view, doc, primary_key, upto - 1);
            crate::index::lemma_secondary_table_differs(self.indices@[upto - 1]);
        }
    }

    /// The primary key is unique: once a document is inserted, a document
    /// with the same primary key is refused as a duplicate.
    pub proof fn lemma_primary_key_is_unique(
        &self,
        view: StoreView,
        first: DocumentView,
        second: DocumentView,
    )
        requires
            self.wf(),
            self.insert_spec(view, first) is Ok,
            self.primary_key_index->0.key_spec(second) == self.primary_key_index->0.key_spec(first),
        ensures
            self.insert_spec(self.insert_spec(view, first)->Ok_0, second) == Err::<StoreView, DbError>(
                DbError::DuplicatePrimaryKey,
            ),
    {
        let primary = self.primary_key_index->0;
        let primary_key = primary.key_spec(first)->0;
        let stored = primary.file_spec(view, first, primary_key)->Ok_0;
        self.lemma_file_all_keeps_documents(
            stored,
            first,
            primary_key,
            self.indices@.len() as int,
        );
    }

    /// A snapshot is isolated from later writes: what a query finds in a
    /// snapshot that was taken of the store in one state is what it finds
    /// in that state, whatever state the store is in by then.
    pub proof fn lemma_snapshot_isolation<K: KV>(
        &self,
        before: K,
        after: K,
        snapshot: K::ReadTransaction,
        query: &Query,
        results: Seq<Result<Document, DbError>>,
    )
        requires
            crate::kv::same_contents(snapshot, before),
            self.best_spec(query).answers(view_of(snapshot), query, results),
        ensures
            self.best_spec(query).answers(view_of(before), query, results),
    {
        lemma_same_view(snapshot, before);
    }

    /// The number of documents in the collection.
    pub fn count<K: KV>(&self, kv: &K) -> (r: Result<u64, DbError>)
        requires
            self.named(),
            self.name is Some,
        ensures
            match r {
                Ok(n) => kv.table(self.name->0@).dom().finite() && n == kv.table(
                    self.name->0@,
                ).dom().len(),
                Err(e) => e is KVError,
            },
    {
        match kv.count(self.name()) {
            Ok(n) => Ok(n),
            Err(error) => Err(DbError::KVError(error)),
        }
    }
}

/// `first` is the first of `results`: none where there is no result, the
/// document or the error where there is one.
pub open spec fn first_of(
    results: Seq<Result<Document, DbError>>,
    first: Result<Option<Document>, DbError>,
) -> bool {
    if results.len() == 0 {
        first matches Ok(None)
    } else {
        match results[0] {
            Ok(doc) => first == Ok::<Option<Document>, DbError>(Some(doc)),
            Err(e) => first == Err::<Option<Document>, DbError>(e),
        }
    }
}

} // verus!
