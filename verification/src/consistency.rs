//! The consistency of a collection: its secondary indexes hold an entry
//! for each of its documents and no other, inserting a document keeps it
//! so, and a query is answered with the documents that meet it.

use vstd::prelude::*;
use crate::collection::{first_of, Collection};
use crate::document::{lemma_document_round_trip, Document, DocumentView, Query};
use crate::error::DbError;
use crate::index::{kept, lemma_secondary_table_differs, Index};
use crate::kv::{entries_of, is_scan, Pair, StoreView};
use crate::wire::packable;

verus! {

impl Collection {
    /// The document that is stored under the primary key `primary_key`.
    pub open spec fn document_at(
        &self,
        view: StoreView,
        primary_key: Seq<u8>,
    ) -> Option<DocumentView> {
        if view.table(self.name->0@).dom().contains(primary_key) {
            DocumentView::decoding(view.table(self.name->0@)[primary_key])
        } else {
            None
        }
    }

    /// Whether every entry of the table of the collection is a document
    /// under its primary key.
    pub open spec fn documents_are_sound(&self, view: StoreView) -> bool {
        forall|primary_key: Seq<u8>| #[trigger]
            view.table(self.name->0@).dom().contains(primary_key) ==> (self.document_at(
                view,
                primary_key,
            ) matches Some(doc) && self.primary_key_index->0.key_spec(doc) == Some(primary_key))
    }

    /// The entries that `index` ought to hold: for each document of the
    /// collection, its key in the index with its primary key.
    pub open spec fn entries_owed(&self, view: StoreView, index: Index) -> Set<Pair> {
        Set::new(
            |p: Pair|
                self.document_at(view, p.1) matches Some(doc) && index.key_spec(doc) == Some(p.0),
        )
    }

    /// Whether the collection is consistent: every entry of its table is a
    /// document under its primary key, and each secondary index holds the
    /// entries that it ought to hold and no other.
    pub open spec fn consistent(&self, view: StoreView) -> bool {
        &&& self.documents_are_sound(view)
        &&& forall|i: int|
            0 <= i < self.indices@.len() ==> (#[trigger] self.indices@[i]).entries(view)
                == self.entries_owed(view, self.indices@[i])
    }

    /// A collection without a document and without an index entry is
    /// consistent.
    pub proof fn lemma_empty_is_consistent(&self)
        requires
            self.wf(),
        ensures
            self.consistent(StoreView::empty()),
    {
        let view = StoreView::empty();
        assert forall|i: int| 0 <= i < self.indices@.len() implies (#[trigger] self.indices@[i]).entries(
            view,
        ) == self.entries_owed(view, self.indices@[i]) by {
            assert(self.indices@[i].entries(view) =~= self.entries_owed(view, self.indices@[i]));
        }
    }

    /// Filing a document in one secondary index adds its entry to that
    /// index and leaves every other secondary index as it is.
    pub proof fn lemma_file_one(
        &self,
        view: StoreView,
        doc: DocumentView,
        primary_key: Seq<u8>,
        position: int,
        other: int,
    )
        requires
            self.wf(),
            view.total(),
            0 <= position < self.indices@.len(),
            0 <= other < self.indices@.len(),
            self.indices@[position].file_spec(view, doc, primary_key) is Ok,
        ensures
            ({
                let index = self.indices@[position];
                let after = index.file_spec(view, doc, primary_key)->Ok_0;
                &&& after.total()
                &&& index.key_spec(doc) is Some
                &&& other == position ==> index.entries(after) == index.entries(view).insert(
                    (index.key_spec(doc)->0, primary_key),
                )
                &&& other != position ==> self.indices@[other].entries(after)
                    == self.indices@[other].entries(view)
            }),
    {
        let index = self.indices@[position];
        let after = index.file_spec(view, doc, primary_key)->Ok_0;
        let key = index.key_spec(doc)->0;
        if other == position {
            assert(index.entries(after) =~= index.entries(view).insert((key, primary_key)));
        } else {
            let o = self.indices@[other];
            if other < position {
                assert(o.table_name_spec() != index.table_name_spec());
            } else {
                assert(index.table_name_spec() != o.table_name_spec());
            }
            assert(o.entries(after) =~= o.entries(view));
        }
    }

    /// Filing a document in the first secondary indexes adds its entry to
    /// each of them and leaves the others as they are.
    pub proof fn lemma_file_all_adds_entries(
        &self,
        view: StoreView,
        doc: DocumentView,
        primary_key: Seq<u8>,
        upto: int,
        other: int,
    )
        requires
            self.wf(),
            view.total(),
            0 <= upto <= self.indices@.len(),
            0 <= other < self.indices@.len(),
            self.file_all(view, doc, primary_key, upto) is Ok,
        ensures
            ({
                let index = self.indices@[other];
                let after = self.file_all(view, doc, primary_key, upto)->Ok_0;
                &&& after.total()
                &&& other < upto ==> index.key_spec(doc) is Some && index.entries(after)
                    == index.entries(view).insert((index.key_spec(doc)->0, primary_key))
                &&& other >= upto ==> index.entries(after) == index.entries(view)
            }),
        decreases upto,
    {
        if upto > 0 {
            self.lemma_file_all_adds_entries(view, doc, primary_key, upto - 1, other);
            let before = self.file_all(view, doc, primary_key, upto - 1)->Ok_0;
            self.lemma_file_one(before, doc, primary_key, upto - 1, other);
        }
    }

    /// Filing a document leaves every name with its table.
    pub proof fn lemma_file_all_total(
        &self,
        view: StoreView,
        doc: DocumentView,
        primary_key: Seq<u8>,
        upto: int,
    )
        requires
            view.total(),
            0 <= upto <= self.indices@.len(),
            self.file_all(view, doc, primary_key, upto) is Ok,
        ensures
            self.file_all(view, doc, primary_key, upto)->Ok_0.total(),
        decreases upto,
    {
        if upto > 0 {
            self.lemma_file_all_total(view, doc, primary_key, upto - 1);
        }
    }

    /// Inserting keeps a collection consistent.
    ///
    /// This holds of the documents that their stored form can hold: no
    /// document in memory is larger.
    pub proof fn lemma_insert_keeps_consistent(&self, view: StoreView, doc: DocumentView)
        requires
            self.wf(),
            view.total(),
            self.consistent(view),
            packable(doc.blocks()),
            self.insert_spec(view, doc) is Ok,
        ensures
            self.consistent(self.insert_spec(view, doc)->Ok_0),
            self.insert_spec(view, doc)->Ok_0.total(),
            self.document_at(
                self.insert_spec(view, doc)->Ok_0,
                self.primary_key_index->0.key_spec(doc)->0,
            ) == Some(doc),
            forall|i: int|
                0 <= i < self.indices@.len() ==> (#[trigger] self.indices@[i]).key_spec(doc) is Some
                    && self.indices@[i].entries(self.insert_spec(view, doc)->Ok_0).contains(
                    (
                        self.indices@[i].key_spec(doc)->0,
                        self.primary_key_index->0.key_spec(doc)->0,
                    ),
                ),
    {
        let name = self.name->0@;
        let primary = self.primary_key_index->0;
        let primary_key = primary.key_spec(doc)->0;
        let stored = primary.file_spec(view, doc, primary_key)->Ok_0;
        let after = self.insert_spec(view, doc)->Ok_0;
        let n = self.indices@.len() as int;
        lemma_document_round_trip(doc);
        assert(stored.total());
        self.lemma_file_all_total(stored, doc, primary_key, n);
        self.lemma_file_all_keeps_documents(stored, doc, primary_key, n);
        assert(after.table(name) == view.table(name).insert(primary_key, doc.encoding()));
        assert(!view.table(name).dom().contains(primary_key));
        assert forall|pk: Seq<u8>| #[trigger]
            after.table(name).dom().contains(pk) implies (self.document_at(after, pk) matches Some(
            d,
        ) && primary.key_spec(d) == Some(pk)) by {
            if pk != primary_key {
                assert(view.table(name).dom().contains(pk));
            }
        }
        assert forall|i: int| 0 <= i < n implies (#[trigger] self.indices@[i]).entries(after)
            == self.entries_owed(after, self.indices@[i]) && self.indices@[i].key_spec(doc) is Some
            && self.indices@[i].entries(after).contains(
            (self.indices@[i].key_spec(doc)->0, primary_key),
        ) by {
            let index = self.indices@[i];
            self.lemma_file_all_adds_entries(stored, doc, primary_key, n, i);
            lemma_secondary_table_differs(index);
            assert(index.entries(stored) =~= index.entries(view));
            let key = index.key_spec(doc)->0;
            assert(index.entries(view) == self.entries_owed(view, index));
            assert forall|p: Pair| self.entries_owed(after, index).contains(p) == self.entries_owed(
                view,
                index,
            ).insert((key, primary_key)).contains(p) by {
                if p.1 == primary_key {
                    assert(self.document_at(after, p.1) == Some(doc));
                    assert(self.document_at(view, p.1) is None);
                } else {
                    assert(self.document_at(after, p.1) == self.document_at(view, p.1));
                }
            }
            assert(self.entries_owed(after, index) =~= self.entries_owed(view, index).insert(
                (key, primary_key),
            ));
        }
    }
}

/// Whether `entry` is the entry of `index` for `doc`: it stands under the
/// key of `doc`, and its value leads to the stored form of `doc`.
pub open spec fn leads_to(index: Index, view: StoreView, entry: Pair, doc: DocumentView) -> bool {
    &&& index.key_spec(doc) == Some(entry.0)
    &&& index.stored_spec(view, entry.1) is Some
    &&& DocumentView::decoding(index.stored_spec(view, entry.1)->0) == Some(doc)
}

/// What is kept comes from the outcomes.
pub proof fn lemma_kept_comes_from<T>(outcomes: Seq<Option<T>>, k: int)
    requires
        0 <= k < kept(outcomes).len(),
    ensures
        exists|j: int| 0 <= j < outcomes.len() && #[trigger] outcomes[j] == Some(kept(outcomes)[k]),
    decreases outcomes.len(),
{
    if outcomes.len() > 0 {
        let front = outcomes.drop_last();
        let last = outcomes.len() - 1;
        if outcomes.last() is Some && k == kept(front).len() {
            assert(outcomes[last] == Some(kept(outcomes)[k]));
        } else {
            lemma_kept_comes_from(front, k);
            let j = choose|j: int| 0 <= j < front.len() && #[trigger] front[j] == Some(kept(front)[k]);
            assert(outcomes[j] == Some(kept(outcomes)[k]));
        }
    }
}

/// Every outcome that contributes is kept.
pub proof fn lemma_kept_holds<T>(outcomes: Seq<Option<T>>, j: int)
    requires
        0 <= j < outcomes.len(),
        outcomes[j] is Some,
    ensures
        exists|k: int| 0 <= k < kept(outcomes).len() && #[trigger] kept(outcomes)[k] == outcomes[j]->0,
    decreases outcomes.len(),
{
    let front = outcomes.drop_last();
    let last = outcomes.len() - 1;
    if j == last {
        let k = kept(front).len() as int;
        assert(kept(outcomes)[k] == outcomes[j]->0);
    } else {
        lemma_kept_holds(front, j);
        let k = choose|k: int| 0 <= k < kept(front).len() && #[trigger] kept(front)[k] == front[j]->0;
        assert(kept(outcomes)[k] == outcomes[j]->0);
    }
}

impl Collection {
    /// Whether `position` names an index of the collection: the primary
    /// index, or one of the secondary indexes.
    pub open spec fn has_index(&self, position: Option<int>) -> bool {
        match position {
            None => true,
            Some(i) => 0 <= i < self.indices@.len(),
        }
    }

    /// Whether `doc` is a document of the collection.
    pub open spec fn holds(&self, view: StoreView, doc: DocumentView) -> bool {
        exists|primary_key: Seq<u8>| #[trigger] self.document_at(view, primary_key) == Some(doc)
    }

    /// What an entry of an index of a consistent collection stands for: a
    /// document of the collection, whose stored form the entry leads to.
    pub proof fn lemma_entry_leads_to_document(
        &self,
        view: StoreView,
        position: Option<int>,
        entry: Pair,
    )
        requires
            self.wf(),
            view.total(),
            self.consistent(view),
            self.has_index(position),
            self.index_at(position).entries(view).contains(entry),
        ensures
            ({
                let index = self.index_at(position);
                &&& index.stored_spec(view, entry.1) matches Some(bytes) && DocumentView::decoding(
                    bytes,
                ) matches Some(doc) && self.holds(view, doc) && index.key_spec(doc) == Some(entry.0)
            }),
    {
        let index = self.index_at(position);
        match position {
            None => {
                assert(view.table(self.name->0@).dom().contains(entry.0));
                assert(self.document_at(view, entry.0) is Some);
            },
            Some(i) => {
                assert(self.indices@[i].entries(view) == self.entries_owed(view, self.indices@[i]));
                assert(self.entries_owed(view, index).contains(entry));
                assert(self.document_at(view, entry.1) is Some);
            },
        }
    }

    /// The entry that an index of a consistent collection holds for a
    /// document of the collection.
    pub proof fn lemma_document_has_entry(
        &self,
        view: StoreView,
        position: Option<int>,
        primary_key: Seq<u8>,
    )
        requires
            self.wf(),
            view.total(),
            self.consistent(view),
            self.has_index(position),
            self.document_at(view, primary_key) is Some,
            self.index_at(position).key_spec(self.document_at(view, primary_key)->0) is Some,
        ensures
            ({
                let index = self.index_at(position);
                let doc = self.document_at(view, primary_key)->0;
                exists|entry: Pair| #[trigger]
                    index.entries(view).contains(entry) && leads_to(index, view, entry, doc)
            }),
    {
        let index = self.index_at(position);
        let doc = self.document_at(view, primary_key)->0;
        match position {
            None => {
                let entry = (primary_key, view.table(self.name->0@)[primary_key]);
                assert(view.table(self.name->0@).dom().contains(primary_key));
                assert(index.entries(view).contains(entry));
            },
            Some(i) => {
                let entry = (index.key_spec(doc)->0, primary_key);
                assert(self.indices@[i].entries(view) == self.entries_owed(view, self.indices@[i]));
                assert(self.entries_owed(view, index).contains(entry));
                assert(index.entries(view).contains(entry));
            },
        }
    }

    /// A query is answered soundly: every answer from an index of a
    /// consistent collection is a document of the collection that meets
    /// the query, or tells that the store failed.
    pub proof fn lemma_answers_are_sound(
        &self,
        view: StoreView,
        position: Option<int>,
        query: &Query,
        results: Seq<Result<Document, DbError>>,
        k: int,
    )
        requires
            self.wf(),
            view.total(),
            self.consistent(view),
            self.has_index(position),
            self.index_at(position).answers(view, query, results),
            0 <= k < results.len(),
        ensures
            match results[k] {
                Ok(doc) => self.holds(view, doc@) && query.admits(doc@),
                Err(e) => e is KVError,
            },
    {
        let index = self.index_at(position);
        let (items, outcomes) = choose|
            items: Seq<Pair>,
            outcomes: Seq<Option<Result<Document, DbError>>>,
        |
            {
                &&& is_scan(index.entries(view), index.plan_spec(query), items)
                &&& outcomes.len() == items.len()
                &&& forall|i: int|
                    0 <= i < items.len() ==> index.selects(
                        view,
                        query,
                        items[i].1,
                        #[trigger] outcomes[i],
                    )
                &&& results == kept(outcomes)
            };
        lemma_kept_comes_from(outcomes, k);
        let j = choose|j: int| 0 <= j < outcomes.len() && #[trigger] outcomes[j] == Some(kept(outcomes)[k]);
        assert(index.selects(view, query, items[j].1, outcomes[j]));
        assert(index.entries(view).contains(items[j]));
        self.lemma_entry_leads_to_document(view, position, items[j]);
    }

    /// A query is answered in full: where no answer tells of a failure,
    /// every document of a consistent collection that meets the query is
    /// among the answers from an index of the collection.
    ///
    /// This holds of the documents that conform to the index, and of which
    /// no value is a strict prefix of the upper end of the range that the
    /// query constrains its field to.
    pub proof fn lemma_answers_are_complete(
        &self,
        view: StoreView,
        position: Option<int>,
        query: &Query,
        results: Seq<Result<Document, DbError>>,
        primary_key: Seq<u8>,
    )
        requires
            self.wf(),
            view.total(),
            self.consistent(view),
            self.has_index(position),
            self.index_at(position).answers(view, query, results),
            forall|k: int| 0 <= k < results.len() ==> (#[trigger] results[k]) is Ok,
            self.document_at(view, primary_key) matches Some(doc) && query.admits(doc)
                && self.index_at(position).conforms(doc) && self.index_at(
                position,
            ).ends_are_prefix_free(query, doc),
        ensures
            exists|k: int|
                0 <= k < results.len() && (#[trigger] results[k]) is Ok && results[k]->Ok_0@
                    == self.document_at(view, primary_key)->0,
    {
        let index = self.index_at(position);
        let doc = self.document_at(view, primary_key)->0;
        let (items, outcomes) = choose|
            items: Seq<Pair>,
            outcomes: Seq<Option<Result<Document, DbError>>>,
        |
            {
                &&& is_scan(index.entries(view), index.plan_spec(query), items)
                &&& outcomes.len() == items.len()
                &&& forall|i: int|
                    0 <= i < items.len() ==> index.selects(
                        view,
                        query,
                        items[i].1,
                        #[trigger] outcomes[i],
                    )
                &&& results == kept(outcomes)
            };
        index.lemma_plan_covers(query, doc);
        self.lemma_document_has_entry(view, position, primary_key);
        let entry = choose|entry: Pair| #[trigger]
            index.entries(view).contains(entry) && leads_to(index, view, entry, doc);
        assert(items.contains(entry));
        let j = choose|j: int| 0 <= j < items.len() && items[j] == entry;
        assert(index.selects(view, query, items[j].1, outcomes[j]));
        if outcomes[j] is Some {
            lemma_kept_holds(outcomes, j);
            let k = choose|k: int|
                0 <= k < kept(outcomes).len() && #[trigger] kept(outcomes)[k] == outcomes[j]->0;
            assert(results[k] is Ok);
        }
    }
}


/// What is kept stands in the order of the outcomes: of two that are kept,
/// the earlier comes from the earlier outcome.
pub proof fn lemma_kept_in_order<T>(outcomes: Seq<Option<T>>, first: int, second: int)
    requires
        0 <= first < second < kept(outcomes).len(),
    ensures
        exists|i: int, j: int|
            0 <= i < j < outcomes.len() && #[trigger] outcomes[i] == Some(kept(outcomes)[first])
                && #[trigger] outcomes[j] == Some(kept(outcomes)[second]),
    decreases outcomes.len(),
{
    if outcomes.len() > 0 {
        let front = outcomes.drop_last();
        let last = outcomes.len() - 1;
        if outcomes.last() is Some && second == kept(front).len() {
            lemma_kept_comes_from(front, first);
            let i = choose|i: int| 0 <= i < front.len() && #[trigger] front[i] == Some(kept(front)[first]);
            assert(outcomes[i] == Some(kept(outcomes)[first]));
            assert(outcomes[last] == Some(kept(outcomes)[second]));
        } else {
            lemma_kept_in_order(front, first, second);
            let (i, j) = choose|i: int, j: int|
                0 <= i < j < front.len() && #[trigger] front[i] == Some(kept(front)[first])
                    && #[trigger] front[j] == Some(kept(front)[second]);
            assert(outcomes[i] == Some(kept(outcomes)[first]));
            assert(outcomes[j] == Some(kept(outcomes)[second]));
        }
    }
}

impl Collection {
    /// No document is answered twice: two answers from an index of a
    /// consistent collection are two documents.
    pub proof fn lemma_answers_are_distinct(
        &self,
        view: StoreView,
        position: Option<int>,
        query: &Query,
        results: Seq<Result<Document, DbError>>,
        first: int,
        second: int,
    )
        requires
            self.wf(),
            view.total(),
            self.consistent(view),
            self.has_index(position),
            self.index_at(position).answers(view, query, results),
            0 <= first < second < results.len(),
            results[first] is Ok,
            results[second] is Ok,
        ensures
            results[first]->Ok_0@ != results[second]->Ok_0@,
    {
        let index = self.index_at(position);
        let (items, outcomes) = choose|
            items: Seq<Pair>,
            outcomes: Seq<Option<Result<Document, DbError>>>,
        |
            {
                &&& is_scan(index.entries(view), index.plan_spec(query), items)
                &&& outcomes.len() == items.len()
                &&& forall|i: int|
                    0 <= i < items.len() ==> index.selects(
                        view,
                        query,
                        items[i].1,
                        #[trigger] outcomes[i],
                    )
                &&& results == kept(outcomes)
            };
        lemma_kept_in_order(outcomes, first, second);
        let (i, j) = choose|i: int, j: int|
            0 <= i < j < outcomes.len() && #[trigger] outcomes[i] == Some(kept(outcomes)[first])
                && #[trigger] outcomes[j] == Some(kept(outcomes)[second]);
        assert(index.selects(view, query, items[i].1, outcomes[i]));
        assert(index.selects(view, query, items[j].1, outcomes[j]));
        assert(index.entries(view).contains(items[i]));
        assert(index.entries(view).contains(items[j]));
        assert(crate::kv::pair_lt(items[i], items[j]));
        self.lemma_entry_leads_to_document(view, position, items[i]);
        self.lemma_entry_leads_to_document(view, position, items[j]);
        if results[first]->Ok_0@ == results[second]->Ok_0@ {
            let doc = results[first]->Ok_0@;
            assert(items[i].0 == items[j].0);
            match position {
                None => {
                    assert(items[i].1 == items[j].1);
                },
                Some(at) => {
                    assert(self.indices@[at].entries(view) == self.entries_owed(
                        view,
                        self.indices@[at],
                    ));
                    assert(self.entries_owed(view, index).contains(items[i]));
                    assert(self.entries_owed(view, index).contains(items[j]));
                    assert(view.table(self.name->0@).dom().contains(items[i].1));
                    assert(view.table(self.name->0@).dom().contains(items[j].1));
                    assert(self.document_at(view, items[i].1) == Some(doc));
                    assert(self.document_at(view, items[j].1) == Some(doc));
                    assert(items[i].1 == items[j].1);
                },
            }
            crate::order::lemma_lex_irreflexive(items[i].0);
            crate::order::lemma_lex_irreflexive(items[i].1);
        }
    }

    /// A document that was inserted is found as it was inserted: where no
    /// answer tells of a failure, the answers from an index of the
    /// collection to a query that the document meets hold the document,
    /// once.
    ///
    /// This holds of the documents that their stored form can hold, that
    /// conform to the index, and of which no value is a strict prefix of
    /// the upper end of a range of the query.
    pub proof fn lemma_inserted_is_found(
        &self,
        view: StoreView,
        doc: DocumentView,
        position: Option<int>,
        query: &Query,
        results: Seq<Result<Document, DbError>>,
    )
        requires
            self.wf(),
            view.total(),
            self.consistent(view),
            packable(doc.blocks()),
            self.insert_spec(view, doc) is Ok,
            self.has_index(position),
            self.index_at(position).answers(self.insert_spec(view, doc)->Ok_0, query, results),
            forall|k: int| 0 <= k < results.len() ==> (#[trigger] results[k]) is Ok,
            query.admits(doc),
            self.index_at(position).conforms(doc),
            self.index_at(position).ends_are_prefix_free(query, doc),
        ensures
            exists|k: int|
                {
                    &&& 0 <= k < results.len()
                    &&& (#[trigger] results[k])->Ok_0@ == doc
                    &&& forall|other: int|
                        0 <= other < results.len() && other != k ==> (#[trigger] results[other])->Ok_0@
                            != doc
                },
    {
        let after = self.insert_spec(view, doc)->Ok_0;
        self.lemma_insert_keeps_consistent(view, doc);
        let primary_key = self.primary_key_index->0.key_spec(doc)->0;
        self.lemma_answers_are_complete(after, position, query, results, primary_key);
        let k = choose|k: int|
            0 <= k < results.len() && (#[trigger] results[k]) is Ok && results[k]->Ok_0@ == doc;
        assert forall|other: int| 0 <= other < results.len() && other != k implies (
        #[trigger] results[other])->Ok_0@ != doc by {
            if other < k {
                self.lemma_answers_are_distinct(after, position, query, results, other, k);
            } else {
                self.lemma_answers_are_distinct(after, position, query, results, k, other);
            }
        }
    }
}

impl Collection {
    /// The first document of a collection is found as it was inserted:
    /// after an insert into a consistent collection without documents, the
    /// first answer to a query that the document meets is that document,
    /// unless the store fails.
    ///
    /// This holds of the documents that their stored form can hold, that
    /// conform to the index that serves the query, and of which no value
    /// is a strict prefix of the upper end of a range of the query.
    pub proof fn lemma_first_document_is_found(
        &self,
        view: StoreView,
        doc: DocumentView,
        query: &Query,
        found: Result<Option<Document>, DbError>,
    )
        requires
            self.wf(),
            view.total(),
            self.consistent(view),
            forall|primary_key: Seq<u8>|
                !(#[trigger] view.table(self.name->0@).dom().contains(primary_key)),
            packable(doc.blocks()),
            self.insert_spec(view, doc) is Ok,
            self.finds_first(self.insert_spec(view, doc)->Ok_0, query, found),
            query.admits(doc),
            self.best_spec(query).conforms(doc),
            self.best_spec(query).ends_are_prefix_free(query, doc),
        ensures
            match found {
                Ok(Some(first)) => first@ == doc,
                Ok(None) => false,
                Err(e) => e is KVError,
            },
    {
        let after = self.insert_spec(view, doc)->Ok_0;
        let name = self.name->0@;
        let primary = self.primary_key_index->0;
        let primary_key = primary.key_spec(doc)->0;
        let position = self.best_upto(query, self.indices@.len() as int);
        self.lemma_best_is_highest(query, self.indices@.len() as int);
        self.lemma_insert_keeps_consistent(view, doc);
        let stored = primary.file_spec(view, doc, primary_key)->Ok_0;
        self.lemma_file_all_keeps_documents(stored, doc, primary_key, self.indices@.len() as int);
        assert(after.table(name) == stored.table(name));
        assert forall|other: Seq<u8>| #[trigger]
            after.table(name).dom().contains(other) implies other == primary_key by {
            assert(!view.table(name).dom().contains(other));
        }
        if !(found is Err && found->Err_0 is KVError) {
            let results = choose|results: Seq<Result<Document, DbError>>|
                #[trigger] self.best_spec(query).answers(after, query, results) && first_of(
                    results,
                    found,
                );
            if results.len() == 0 {
                self.lemma_answers_are_complete(after, position, query, results, primary_key);
            } else {
                self.lemma_answers_are_sound(after, position, query, results, 0);
                match results[0] {
                    Ok(first) => {
                        let at = choose|at: Seq<u8>| #[trigger]
                            self.document_at(after, at) == Some(first@);
                        assert(after.table(name).dom().contains(at));
                        assert(at == primary_key);
                    },
                    Err(_) => {},
                }
            }
        }
    }
}

} // verus!
