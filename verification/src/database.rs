//! The binding of a schema to a store: the collections of a database are
//! declared, set up and checked against each other before the database is
//! used.

use vstd::prelude::*;
use crate::collection::{first_of, Collection};
use crate::document::{str_eq, Document, Query};
use crate::error::DbError;
use crate::index::{Index, IndexField, IndexOptions};
use crate::kv::{view_of, ReadOperations, StoreView, WriteOperations, KV};
use crate::metadata::{
    CollectionDescription, index_table_names, IndexDescription, MetadataDocument,
};

verus! {

/// The declaration of a secondary index: its fields and its options.
#[derive(Debug)]
pub struct IndexDef {
    pub fields: Vec<IndexField>,
    pub options: IndexOptions,
}

/// The declaration of a collection: its name, the fields of its primary
/// key, its secondary indexes, and the fields of its documents with the
/// names of their types.
#[derive(Debug)]
pub struct CollectionDef {
    pub name: String,
    pub primary_key: Vec<IndexField>,
    pub indices: Vec<IndexDef>,
    pub fields: Vec<(String, String)>,
}

/// A database: a store and the collections that are kept in it.
pub struct AnonDB<K: KV> {
    pub kv: K,
    pub collections: Vec<Collection>,
}

/// The version of the description of a schema.
pub const METADATA_VERSION: u64 = 1;

/// Whether no name occurs twice in `names`.
pub open spec fn distinct(names: Seq<String>) -> bool {
    forall|i: int, j: int| 0 <= i < j < names.len() ==> (#[trigger] names[i])@ != (#[trigger] names[j])@
}

/// The names of the tables of the first `upto` collections: for each, the
/// table of the collection and then the tables of its secondary indexes.
pub open spec fn tables_upto(collections: Seq<Collection>, upto: int) -> Seq<Seq<char>>
    decreases upto,
{
    if upto <= 0 {
        Seq::empty()
    } else {
        let c = collections[upto - 1];
        tables_upto(collections, upto - 1) + seq![c.name->0@] + crate::collection::index_tables(
            c.indices@,
            c.indices@.len() as int,
        )
    }
}

/// The views of a list of names.
pub open spec fn name_views(names: Seq<String>) -> Seq<Seq<char>> {
    Seq::new(names.len(), |i: int| names[i]@)
}

/// Whether the collections make up a usable schema: each has a name and a
/// primary key over at least one field, kept in the table of the
/// collection, its secondary indexes fit it, and no table is used twice.
pub open spec fn usable(collections: Seq<Collection>) -> bool {
    &&& forall|i: int|
        0 <= i < collections.len() ==> {
            &&& (#[trigger] collections[i]).name is Some
            &&& collections[i].primary_key_index is Some
            &&& collections[i].primary_key_index->0.collection_name@ == collections[i].name->0@
            &&& collections[i].primary_key_index->0.field_names@.len() > 0
            &&& collections[i].indices_fit()
        }
    &&& tables_upto(collections, collections.len() as int).no_duplicates()
}

/// In a usable schema every table has a name.
pub proof fn lemma_usable_is_named(collections: Seq<Collection>, i: int)
    requires
        usable(collections),
        0 <= i < collections.len(),
    ensures
        collections[i].named(),
{
}

/// Whether `name` occurs in `names`.
fn listed(names: &Vec<String>, name: &str) -> (r: bool)
    ensures
        r == name_views(names@).contains(name@),
{
    let mut i: usize = 0;
    while i < names.len()
        invariant
            i <= names.len(),
            forall|j: int| 0 <= j < i ==> name_views(names@)[j] != name@,
        decreases names.len() - i,
    {
        if str_eq(names[i].as_str(), name) {
            assert(name_views(names@)[i as int] == name@);
            return true;
        }
        i += 1;
    }
    false
}

/// The secondary index that `def` declares at `position`.
pub open spec fn declared_index(def: CollectionDef, position: int) -> Index {
    Index {
        collection_name: def.name,
        field_names: def.indices@[position].fields,
        options: def.indices@[position].options,
    }
}

/// Whether the declaration of a collection can be set up: the collection
/// has a name, its primary key has a field, each of its indexes has a
/// field and is not primary, and no two of its indexes have one table.
pub open spec fn buildable(def: CollectionDef) -> bool {
    &&& def.name@.len() > 0
    &&& def.primary_key@.len() > 0
    &&& forall|i: int|
        0 <= i < def.indices@.len() ==> {
            &&& !(#[trigger] def.indices@[i]).options.primary
            &&& def.indices@[i].fields@.len() > 0
        }
    &&& forall|i: int, j: int|
        0 <= i < j < def.indices@.len() ==> (#[trigger] declared_index(def, i)).table_name_spec() != (
        #[trigger] declared_index(def, j)).table_name_spec()
}

/// Whether `c` is the collection that `def` declares: it has the name,
/// the primary key over the declared fields, and the declared indexes in
/// their order.
pub open spec fn built_from(c: Collection, def: CollectionDef) -> bool {
    &&& c.name matches Some(name) && name@ == def.name@
    &&& c.primary_key_index matches Some(primary) && primary.field_names == def.primary_key
        && primary.collection_name@ == def.name@ && primary.options == (IndexOptions {
        unique: true,
        primary: true,
    })
    &&& c.indices@.len() == def.indices@.len()
    &&& forall|i: int|
        0 <= i < def.indices@.len() ==> {
            &&& (#[trigger] c.indices@[i]).field_names == def.indices@[i].fields
            &&& c.indices@[i].options == def.indices@[i].options
            &&& c.indices@[i].collection_name@ == def.name@
        }
}

/// The table of an index is named after its collection, its fields and
/// its options only.
pub proof fn lemma_same_table(a: Index, b: Index)
    requires
        a.collection_name@ == b.collection_name@,
        a.field_names == b.field_names,
        a.options == b.options,
    ensures
        a.table_name_spec() == b.table_name_spec(),
{
}

/// Set up the collection that `def` declares. The declaration is refused
/// where it cannot be set up.
pub fn build(def: CollectionDef) -> (r: Result<Collection, DbError>)
    ensures
        match r {
            Ok(c) => {
                &&& buildable(def)
                &&& built_from(c, def)
                &&& c.indices_fit()
            },
            Err(e) => e is InvalidSchema && !buildable(def),
        },
{
    let CollectionDef { name, primary_key, indices, fields } = def;
    if primary_key.len() == 0 {
        return Err(DbError::InvalidSchema);
    }
    let mut c = Collection::new();
    let ghost declared = indices@;
    match c.set_name(name.clone()) {
        Ok(_) => {},
        Err(error) => {
            return Err(error);
        },
    }
    match c.set_primary_key(primary_key) {
        Ok(_) => {},
        Err(error) => {
            return Err(error);
        },
    }
    let mut indices = indices;
    let mut added: usize = 0;
    let total = indices.len();
    let mut rest: Vec<IndexDef> = Vec::new();
    // The declarations are taken from the end; the list is turned round
    // first, so that the indexes are added in the order of their declaration.
    while indices.len() > 0
        invariant
            rest@.len() + indices@.len() == total,
            total == declared.len(),
            forall|i: int| 0 <= i < indices@.len() ==> indices@[i] == declared[i],
            forall|i: int|
                0 <= i < rest@.len() ==> (#[trigger] rest@[i]) == declared[total - 1 - i],
        decreases indices@.len(),
    {
        match indices.pop() {
            Some(index) => {
                rest.push(index);
            },
            None => {},
        }
    }
    while rest.len() > 0
        invariant
            added + rest@.len() == total,
            total == declared.len(),
            declared == def.indices@,
            name@ == def.name@,
            name@.len() > 0,
            def.primary_key@.len() > 0,
            forall|i: int|
                0 <= i < rest@.len() ==> (#[trigger] rest@[i]) == declared[total - 1 - i],
            c.name matches Some(n) && n@ == name@,
            c.primary_key_index matches Some(primary) && primary.field_names == def.primary_key
                && primary.collection_name@ == name@ && primary.options == (IndexOptions {
                unique: true,
                primary: true,
            }),
            c.indices@.len() == added,
            forall|i: int|
                0 <= i < added ==> (#[trigger] c.indices@[i]).field_names == declared[i].fields
                    && c.indices@[i].options == declared[i].options && c.indices@[i].collection_name@
                    == name@,
        decreases rest@.len(),
    {
        match rest.pop() {
            Some(index) => {
                let IndexDef { fields, options } = index;
                let ghost position = added as int;
                match c.add_index(Index { collection_name: name.clone(), field_names: fields, options }) {
                    Ok(_) => {},
                    Err(error) => {
                        assert(def.indices@[position].fields@.len() == 0);
                        return Err(error);
                    },
                }
                added += 1;
            },
            None => {},
        }
    }
    proof {
        assert(built_from(c, def));
        assert forall|i: int| 0 <= i < def.indices@.len() implies (#[trigger] c.indices@[i]).table_name_spec()
            == declared_index(def, i).table_name_spec() by {
            lemma_same_table(c.indices@[i], declared_index(def, i));
        }
    }
    match c.construct_indices() {
        Ok(_) => {
            proof {
                assert forall|i: int, j: int| 0 <= i < j < def.indices@.len() implies (
                #[trigger] declared_index(def, i)).table_name_spec() != (#[trigger] declared_index(
                    def,
                    j,
                )).table_name_spec() by {
                    assert(c.indices@[i].table_name_spec() != c.indices@[j].table_name_spec());
                }
                assert forall|i: int| 0 <= i < def.indices@.len() implies !(
                #[trigger] def.indices@[i]).options.primary && def.indices@[i].fields@.len() > 0 by {
                    assert(c.indices@[i].field_names == def.indices@[i].fields);
                }
                assert(buildable(def));
            }
            Ok(c)
        },
        Err(error) => {
            proof {
                if buildable(def) {
                    assert forall|i: int, j: int| 0 <= i < j < c.indices@.len() implies (
                    #[trigger] c.indices@[i]).table_name_spec() != (
                    #[trigger] c.indices@[j]).table_name_spec() by {
                        assert(declared_index(def, i).table_name_spec() != declared_index(
                            def,
                            j,
                        ).table_name_spec());
                    }
                    assert forall|i: int| 0 <= i < c.indices@.len() implies {
                        &&& (#[trigger] c.indices@[i]).collection_name@ == c.name->0@
                        &&& !c.indices@[i].options.primary
                        &&& c.indices@[i].field_names@.len() > 0
                    } by {
                        assert(c.indices@[i].field_names == def.indices@[i].fields);
                    }
                    assert(c.indices_fit());
                }
            }
            Err(error)
        },
    }
}

/// The names of the tables that `def` declares: that of the collection,
/// then those of its indexes.
pub open spec fn declared_tables(def: CollectionDef) -> Seq<Seq<char>> {
    seq![def.name@] + Seq::new(
        def.indices@.len(),
        |i: int| declared_index(def, i).table_name_spec(),
    )
}

/// The names of the tables that the first `upto` of `defs` declare.
pub open spec fn all_declared_tables(defs: Seq<CollectionDef>, upto: int) -> Seq<Seq<char>>
    decreases upto,
{
    if upto <= 0 {
        Seq::empty()
    } else {
        all_declared_tables(defs, upto - 1) + declared_tables(defs[upto - 1])
    }
}

/// Whether the declarations make up a usable schema: each collection can
/// be set up, and no two tables of the database have one name.
pub open spec fn schema_usable(defs: Seq<CollectionDef>) -> bool {
    &&& forall|i: int| 0 <= i < defs.len() ==> buildable(#[trigger] defs[i])
    &&& all_declared_tables(defs, defs.len() as int).no_duplicates()
}

/// The tables of the first declarations stand first among the tables of
/// more declarations.
pub proof fn lemma_declared_prefix(defs: Seq<CollectionDef>, i: int, j: int)
    requires
        0 <= i <= j,
    ensures
        all_declared_tables(defs, i).len() <= all_declared_tables(defs, j).len(),
        forall|p: int|
            0 <= p < all_declared_tables(defs, i).len() ==> all_declared_tables(defs, j)[p]
                == all_declared_tables(defs, i)[p],
    decreases j - i,
{
    if i < j {
        lemma_declared_prefix(defs, i, j - 1);
    }
}

/// The tables of a collection that was set up are those that its
/// declaration declares.
pub proof fn lemma_built_tables(c: Collection, def: CollectionDef)
    requires
        built_from(c, def),
    ensures
        seq![c.name->0@] + crate::collection::index_tables(c.indices@, c.indices@.len() as int)
            == declared_tables(def),
{
    let tables = crate::collection::index_tables(c.indices@, c.indices@.len() as int);
    let declared = Seq::new(def.indices@.len(), |i: int| declared_index(def, i).table_name_spec());
    assert forall|i: int| 0 <= i < tables.len() implies tables[i] == declared[i] by {
        lemma_same_table(c.indices@[i], declared_index(def, i));
    }
    assert(tables =~= declared);
}

impl<K: KV> AnonDB<K> {
    /// The database of the collections that `defs` declare, in the store
    /// `kv`.
    ///
    /// The schema is refused where a collection has no name, where a
    /// primary key or an index has no field, where a declared index is
    /// primary, and where two tables of the database would have one name.
    pub fn setup(kv: K, defs: Vec<CollectionDef>) -> (r: Result<Self, DbError>)
        ensures
            match r {
                Ok(db) => {
                    &&& db.kv == kv
                    &&& schema_usable(defs@)
                    &&& usable(db.collections@)
                    &&& db.collections@.len() == defs@.len()
                    &&& forall|i: int|
                        0 <= i < defs@.len() ==> built_from(#[trigger] db.collections@[i], defs@[i])
                },
                Err(e) => e is InvalidSchema && !schema_usable(defs@),
            },
    {
        let ghost declared = defs@;
        let total = defs.len();
        let mut pending = defs;
        let mut rest: Vec<CollectionDef> = Vec::new();
        while pending.len() > 0
            invariant
                rest@.len() + pending@.len() == total,
                total == declared.len(),
                forall|i: int| 0 <= i < pending@.len() ==> pending@[i] == declared[i],
                forall|i: int|
                    0 <= i < rest@.len() ==> (#[trigger] rest@[i]) == declared[total - 1 - i],
            decreases pending@.len(),
        {
            match pending.pop() {
                Some(def) => {
                    rest.push(def);
                },
                None => {},
            }
        }
        let mut collections: Vec<Collection> = Vec::new();
        let mut tables: Vec<String> = Vec::new();
        assert(name_views(tables@) =~= tables_upto(collections@, 0));
        while rest.len() > 0
            invariant
                collections@.len() + rest@.len() == total,
                total == declared.len(),
                declared == defs@,
                forall|i: int|
                    0 <= i < rest@.len() ==> (#[trigger] rest@[i]) == declared[total - 1 - i],
                forall|i: int|
                    0 <= i < collections@.len() ==> built_from(
                        #[trigger] collections@[i],
                        declared[i],
                    ),
                forall|i: int| 0 <= i < collections@.len() ==> buildable(#[trigger] declared[i]),
                name_views(tables@) == all_declared_tables(declared, collections@.len() as int),
                forall|i: int|
                    0 <= i < collections@.len() ==> {
                        &&& (#[trigger] collections@[i]).name is Some
                        &&& collections@[i].name->0@ == declared[i].name@
                        &&& collections@[i].primary_key_index is Some
                        &&& collections@[i].primary_key_index->0.collection_name@
                            == collections@[i].name->0@
                        &&& collections@[i].primary_key_index->0.field_names@.len() > 0
                        &&& collections@[i].indices_fit()
                    },
                name_views(tables@) == tables_upto(collections@, collections@.len() as int),
                name_views(tables@).no_duplicates(),
            decreases rest@.len(),
        {
            let ghost position = collections@.len() as int;
            let def = match rest.pop() {
                Some(def) => def,
                None => {
                    return Err(DbError::InvalidSchema);
                },
            };
            assert(def == declared[position]);
            let c = match build(def) {
                Ok(c) => c,
                Err(error) => {
                    return Err(error);
                },
            };
            let names = c.table_names();
            let ghost before = name_views(tables@);
            proof {
                lemma_built_tables(c, declared[position]);
                assert(name_views(names@) =~= declared_tables(declared[position])) by {
                    let expected = seq![c.name->0@] + crate::collection::index_tables(
                        c.indices@,
                        c.indices@.len() as int,
                    );
                    assert forall|m: int| 0 <= m < expected.len() implies name_views(names@)[m]
                        == expected[m] by {
                        if m > 0 {
                            assert(names@[(m - 1) + 1]@ == c.indices@[m - 1].table_name_spec());
                        }
                    }
                    assert(name_views(names@) =~= expected);
                }
            }
            let mut k: usize = 0;
            while k < names.len()
                invariant
                    k <= names.len(),
                    0 <= position < total,
                    total == declared.len(),
                    declared == defs@,
                    before == all_declared_tables(declared, position),
                    name_views(names@) == declared_tables(declared[position]),
                    name_views(tables@) == before + name_views(names@).take(k as int),
                    name_views(tables@).no_duplicates(),
                decreases names.len() - k,
            {
                if listed(&tables, names[k].as_str()) {
                    proof {
                        let held = name_views(tables@);
                        let p = choose|p: int| 0 <= p < held.len() && held[p] == names@[k as int]@;
                        let q = before.len() + k;
                        let upto = all_declared_tables(declared, position + 1);
                        assert(upto =~= before + name_views(names@));
                        assert(upto[p] == held[p]);
                        assert(upto[q] == name_views(names@)[k as int]);
                        let full = all_declared_tables(declared, total as int);
                        lemma_declared_prefix(declared, position + 1, total as int);
                        assert(full[p] == full[q]);
                        assert(!schema_usable(declared));
                    }
                    return Err(DbError::InvalidSchema);
                }
                let ghost earlier = name_views(tables@);
                tables.push(names[k].clone());
                proof {
                    assert(name_views(tables@) =~= earlier.push(names@[k as int]@));
                    assert(name_views(names@).take(k + 1) =~= name_views(names@).take(k as int).push(
                        names@[k as int]@,
                    ));
                }
                k += 1;
            }
            proof {
                assert(name_views(names@).take(names@.len() as int) =~= name_views(names@));
                let expected = seq![c.name->0@] + crate::collection::index_tables(
                    c.indices@,
                    c.indices@.len() as int,
                );
                assert forall|m: int| 0 <= m < expected.len() implies name_views(names@)[m]
                    == expected[m] by {
                    if m > 0 {
                        assert(names@[(m - 1) + 1]@ == c.indices@[m - 1].table_name_spec());
                    }
                }
                assert(name_views(names@) =~= expected);
                let after = collections@.push(c);
                lemma_tables_prefix(collections@, after, collections@.len() as int);
                assert(name_views(tables@) =~= tables_upto(after, after.len() as int));
            }
            collections.push(c);
        }
        Ok(AnonDB { kv, collections })
    }

    /// Whether the collections of the database make up a usable schema.
    /// The collections of a database that was set up do; those of a
    /// database that was put together by hand are checked before they are
    /// used.
    pub fn is_usable(&self) -> (r: bool)
        ensures
            r == usable(self.collections@),
    {
        let mut tables: Vec<String> = Vec::new();
        let ghost all = self.collections@;
        let mut i: usize = 0;
        assert(name_views(tables@) =~= tables_upto(all, 0));
        while i < self.collections.len()
            invariant
                i <= self.collections.len(),
                all == self.collections@,
                forall|j: int|
                    0 <= j < i ==> {
                        &&& (#[trigger] all[j]).name is Some
                        &&& all[j].primary_key_index is Some
                        &&& all[j].primary_key_index->0.collection_name@ == all[j].name->0@
                        &&& all[j].primary_key_index->0.field_names@.len() > 0
                        &&& all[j].indices_fit()
                    },
                name_views(tables@) == tables_upto(all, i as int),
                name_views(tables@).no_duplicates(),
            decreases self.collections.len() - i,
        {
            let c = &self.collections[i];
            let set_up = match (&c.name, &c.primary_key_index) {
                (Some(name), Some(primary)) => str_eq(
                    primary.collection_name.as_str(),
                    name.as_str(),
                ) && primary.field_names.len() > 0,
                _ => false,
            };
            if !set_up {
                assert(!usable(all)) by {
                    let failing = all[i as int];
                }
                return false;
            }
            match c.construct_indices() {
                Ok(_) => {},
                Err(_) => {
                    assert(!usable(all)) by {
                        let failing = all[i as int];
                    }
                    return false;
                },
            }
            let names = c.table_names();
            let ghost before = name_views(tables@);
            proof {
                let expected = seq![c.name->0@] + crate::collection::index_tables(
                    c.indices@,
                    c.indices@.len() as int,
                );
                assert forall|m: int| 0 <= m < expected.len() implies name_views(names@)[m]
                    == expected[m] by {
                    if m > 0 {
                        assert(names@[(m - 1) + 1]@ == c.indices@[m - 1].table_name_spec());
                    }
                }
                assert(name_views(names@) =~= expected);
                assert(tables_upto(all, i + 1) == before + name_views(names@));
            }
            let mut k: usize = 0;
            while k < names.len()
                invariant
                    k <= names.len(),
                    i < self.collections.len(),
                    all == self.collections@,
                    before == tables_upto(all, i as int),
                    tables_upto(all, i + 1) == before + name_views(names@),
                    name_views(tables@) == before + name_views(names@).take(k as int),
                    name_views(tables@).no_duplicates(),
                decreases names.len() - k,
            {
                if listed(&tables, names[k].as_str()) {
                    proof {
                        let held = name_views(tables@);
                        let p = choose|p: int| 0 <= p < held.len() && held[p] == names@[k as int]@;
                        let q = before.len() + k;
                        let upto = tables_upto(all, i + 1);
                        assert(upto[p] == held[p]);
                        assert(upto[q] == name_views(names@)[k as int]);
                        let full = tables_upto(all, all.len() as int);
                        lemma_tables_stand_first(all, i + 1, all.len() as int);
                        assert(full[p] == full[q]);
                    }
                    return false;
                }
                let ghost earlier = name_views(tables@);
                tables.push(names[k].clone());
                proof {
                    assert(name_views(tables@) =~= earlier.push(names@[k as int]@));
                    assert(name_views(names@).take(k + 1) =~= name_views(names@).take(k as int).push(
                        names@[k as int]@,
                    ));
                }
                k += 1;
            }
            proof {
                assert(name_views(names@).take(names@.len() as int) =~= name_views(names@));
            }
            i += 1;
        }
        true
    }

    /// The position of the collection `name`.
    pub fn position(&self, name: &str) -> (r: Option<usize>)
        requires
            usable(self.collections@),
        ensures
            match r {
                Some(i) => i < self.collections@.len() && self.collections@[i as int].name->0@ == name@,
                None => forall|i: int|
                    0 <= i < self.collections@.len() ==> (#[trigger] self.collections@[i]).name->0@
                        != name@,
            },
    {
        let mut i: usize = 0;
        while i < self.collections.len()
            invariant
                i <= self.collections.len(),
                usable(self.collections@),
                forall|j: int| 0 <= j < i ==> (#[trigger] self.collections@[j]).name->0@ != name@,
            decreases self.collections.len() - i,
        {
            assert(self.collections@[i as int].name is Some);
            if str_eq(self.collections[i].name(), name) {
                return Some(i);
            }
            i += 1;
        }
        None
    }

    /// Insert a document into the collection `name`.
    pub fn insert(&mut self, name: &str, doc: &Document) -> (r: Result<(), DbError>)
        requires
            usable(old(self).collections@),
        ensures
            final(self).collections == old(self).collections,
            final(self).kv.store() == old(self).kv.store(),
            match old(self).position_spec(name@) {
                None => r matches Err(DbError::InvalidSchema) && final(self).kv == old(self).kv,
                Some(i) => {
                    let c = old(self).collections@[i];
                    match r {
                        Ok(_) => c.insert_spec(view_of(old(self).kv), doc@) == Ok::<StoreView, DbError>(
                            view_of(final(self).kv),
                        ),
                        Err(DbError::KVError(_)) => view_of(final(self).kv) == view_of(old(self).kv)
                            || c.insert_spec(view_of(old(self).kv), doc@) == Ok::<StoreView, DbError>(
                            view_of(final(self).kv),
                        ),
                        Err(e) => c.insert_spec(view_of(old(self).kv), doc@) == Err::<
                            StoreView,
                            DbError,
                        >(e) && view_of(final(self).kv) == view_of(old(self).kv),
                    }
                },
            },
    {
        match self.find(name) {
            Some(i) => {
                proof {
                    lemma_usable_is_named(self.collections@, i as int);
                }
                self.collections[i].insert(&mut self.kv, doc)
            },
            None => Err(DbError::InvalidSchema),
        }
    }

    /// The position of the first collection named `name`.
    pub open spec fn position_spec(&self, name: Seq<char>) -> Option<int> {
        if exists|i: int| 0 <= i < self.collections@.len() && (#[trigger] self.collections@[i]).name->0@ == name {
            Some(
                choose|i: int|
                    0 <= i < self.collections@.len() && (#[trigger] self.collections@[i]).name->0@
                        == name,
            )
        } else {
            None
        }
    }

    /// The position of the collection `name`, which is the only one of
    /// that name.
    fn find(&self, name: &str) -> (r: Option<usize>)
        requires
            usable(self.collections@),
        ensures
            match r {
                Some(i) => self.position_spec(name@) == Some(i as int) && i < self.collections@.len(),
                None => self.position_spec(name@) is None,
            },
    {
        let r = self.position(name);
        proof {
            match r {
                Some(i) => {
                    let chosen = self.position_spec(name@)->0;
                    lemma_names_differ(self.collections@, i as int, chosen);
                },
                None => {},
            }
        }
        r
    }

    /// The documents of the collection `name` that match `query`.
    pub fn find_many(&self, name: &str, query: &Query) -> (r: Result<
        Vec<Result<Document, DbError>>,
        DbError,
    >)
        requires
            usable(self.collections@),
        ensures
            match self.position_spec(name@) {
                None => r matches Err(DbError::InvalidSchema),
                Some(i) => match r {
                    Ok(results) => self.collections@[i].best_spec(query).answers(
                        view_of(self.kv),
                        query,
                        results@,
                    ),
                    Err(e) => e is KVError,
                },
            },
    {
        match self.find(name) {
            Some(i) => {
                proof {
                    lemma_usable_is_named(self.collections@, i as int);
                }
                self.collections[i].find_many(&self.kv, query)
            },
            None => Err(DbError::InvalidSchema),
        }
    }

    /// The first of the documents of the collection `name` that match
    /// `query`.
    pub fn find_one(&self, name: &str, query: &Query) -> (r: Result<Option<Document>, DbError>)
        requires
            usable(self.collections@),
        ensures
            match self.position_spec(name@) {
                None => r matches Err(DbError::InvalidSchema),
                Some(i) => self.collections@[i].finds_first(view_of(self.kv), query, r),
            },
    {
        match self.find(name) {
            Some(i) => {
                proof {
                    lemma_usable_is_named(self.collections@, i as int);
                }
                self.collections[i].find_one(&self.kv, query)
            },
            None => Err(DbError::InvalidSchema),
        }
    }

    /// The number of documents of the collection `name`.
    pub fn count(&self, name: &str) -> (r: Result<u64, DbError>)
        requires
            usable(self.collections@),
        ensures
            match r {
                Ok(n) => self.position_spec(name@) is Some && n == self.kv.table(name@).dom().len(),
                Err(DbError::InvalidSchema) => self.position_spec(name@) is None,
                Err(e) => e is KVError,
            },
    {
        match self.find(name) {
            Some(i) => {
                proof {
                    lemma_usable_is_named(self.collections@, i as int);
                }
                self.collections[i].count(&self.kv)
            },
            None => Err(DbError::InvalidSchema),
        }
    }

    /// Rebuild the secondary indexes of the collection `name`.
    pub fn rebuild_indices(&mut self, name: &str) -> (r: Result<(), DbError>)
        requires
            usable(old(self).collections@),
        ensures
            final(self).collections == old(self).collections,
            final(self).kv.store() == old(self).kv.store(),
            match old(self).position_spec(name@) {
                None => r matches Err(DbError::InvalidSchema) && final(self).kv == old(self).kv,
                Some(i) => {
                    let c = old(self).collections@[i];
                    match r {
                        Ok(_) => c.rebuilds(
                            view_of(old(self).kv),
                            Ok::<StoreView, DbError>(view_of(final(self).kv)),
                        ),
                        Err(DbError::KVError(_)) => view_of(final(self).kv) == view_of(old(self).kv)
                            || c.rebuilds(
                            view_of(old(self).kv),
                            Ok::<StoreView, DbError>(view_of(final(self).kv)),
                        ),
                        Err(e) => c.rebuilds(view_of(old(self).kv), Err::<StoreView, DbError>(e))
                            && view_of(final(self).kv) == view_of(old(self).kv),
                    }
                },
            },
    {
        match self.find(name) {
            Some(i) => {
                proof {
                    lemma_usable_is_named(self.collections@, i as int);
                }
                self.collections[i].rebuild_indices(&mut self.kv)
            },
            None => Err(DbError::InvalidSchema),
        }
    }

    /// The description of the indexes of the schema, with the given
    /// descriptions of the documents of its collections. No two of the
    /// described indexes have one table.
    pub fn describe(&self, collections: Vec<(String, CollectionDescription)>) -> (d: MetadataDocument)
        requires
            usable(self.collections@),
        ensures
            d.version == METADATA_VERSION,
            d.collections == collections,
            d.indices_by_collection@.len() == index_count(
                self.collections@,
                self.collections@.len() as int,
            ),
            forall|k: int|
                0 <= k < d.indices_by_collection@.len() ==> is_description(
                    self.collections@,
                    #[trigger] d.indices_by_collection@[k],
                ),
            index_table_names(d.indices_by_collection@).no_duplicates(),
    {
        let mut indices: Vec<(String, IndexDescription)> = Vec::new();
        let ghost all = tables_upto(self.collections@, self.collections@.len() as int);
        let ghost mut places: Seq<int> = Seq::empty();
        let mut i: usize = 0;
        while i < self.collections.len()
            invariant
                i <= self.collections.len(),
                usable(self.collections@),
                all == tables_upto(self.collections@, self.collections@.len() as int),
                indices@.len() == index_count(self.collections@, i as int),
                forall|k: int|
                    0 <= k < indices@.len() ==> is_description(self.collections@, #[trigger] indices@[k]),
                places.len() == indices@.len(),
                forall|k: int|
                    0 <= k < places.len() ==> 0 <= (#[trigger] places[k]) < tables_upto(
                        self.collections@,
                        i as int,
                    ).len() && places[k] < all.len() && all[places[k]] == indices@[k].1.table_name@,
                forall|a: int, b: int| 0 <= a < b < places.len() ==> places[a] < places[b],
            decreases self.collections.len() - i,
        {
            let c = &self.collections[i];
            assert(self.collections@[i as int].name is Some);
            let ghost base = tables_upto(self.collections@, i as int).len();
            let mut j: usize = 0;
            while j < c.indices.len()
                invariant
                    j <= c.indices.len(),
                    i < self.collections.len(),
                    *c == self.collections@[i as int],
                    c.name is Some,
                    all == tables_upto(self.collections@, self.collections@.len() as int),
                    base == tables_upto(self.collections@, i as int).len(),
                    indices@.len() == index_count(self.collections@, i as int) + j,
                    forall|k: int|
                        0 <= k < indices@.len() ==> is_description(
                            self.collections@,
                            #[trigger] indices@[k],
                        ),
                    places.len() == indices@.len(),
                    forall|k: int|
                        0 <= k < places.len() ==> 0 <= (#[trigger] places[k]) < base + 1 + j
                            && places[k] < all.len() && all[places[k]] == indices@[k].1.table_name@,
                    forall|a: int, b: int| 0 <= a < b < places.len() ==> places[a] < places[b],
                decreases c.indices.len() - j,
            {
                let entry = (c.name().to_owned(), c.indices[j].describe());
                assert(describes(self.collections@[i as int], j as int, entry));
                assert(is_description(self.collections@, entry));
                proof {
                    lemma_index_table_listed(
                        self.collections@,
                        i as int,
                        j as int,
                        self.collections@.len() as int,
                    );
                    places = places.push(base + 1 + j);
                }
                indices.push(entry);
                j += 1;
            }
            i += 1;
        }
        proof {
            let names = index_table_names(indices@);
            assert forall|a: int, b: int| 0 <= a < names.len() && 0 <= b < names.len() && a
                != b implies names[a] != names[b] by {
                assert(all[places[a]] == names[a]);
                assert(all[places[b]] == names[b]);
                if a < b {
                    assert(places[a] < places[b]);
                } else {
                    assert(places[b] < places[a]);
                }
            }
        }
        MetadataDocument {
            version: METADATA_VERSION,
            schema_version: 0,
            indices_by_collection: indices,
            collections,
        }
    }
}

/// The table of an index stands among the tables of the database, behind
/// the table of its collection.
pub proof fn lemma_index_table_listed(collections: Seq<Collection>, i: int, j: int, upto: int)
    requires
        0 <= i < upto <= collections.len(),
        0 <= j < collections[i].indices@.len(),
    ensures
        tables_upto(collections, i).len() + 1 + j < tables_upto(collections, upto).len(),
        tables_upto(collections, upto)[tables_upto(collections, i).len() + 1 + j]
            == collections[i].indices@[j].table_name_spec(),
    decreases upto,
{
    if i < upto - 1 {
        lemma_index_table_listed(collections, i, j, upto - 1);
    }
}

/// The number of secondary indexes of the first `upto` collections.
pub open spec fn index_count(collections: Seq<Collection>, upto: int) -> int
    decreases upto,
{
    if upto <= 0 {
        0
    } else {
        index_count(collections, upto - 1) + collections[upto - 1].indices@.len()
    }
}

/// Whether `entry` describes a secondary index of one of the collections.
pub open spec fn is_description(
    collections: Seq<Collection>,
    entry: (String, IndexDescription),
) -> bool {
    exists|i: int, j: int|
        0 <= i < collections.len() && 0 <= j < collections[i].indices@.len() && #[trigger] describes(
            collections[i],
            j,
            entry,
        )
}

/// Whether `entry` describes the secondary index at `position` of the
/// collection `c`.
pub open spec fn describes(
    c: Collection,
    position: int,
    entry: (String, IndexDescription),
) -> bool {
    let index = c.indices@[position];
    &&& entry.0@ == c.name->0@
    &&& entry.1.table_name@ == index.table_name_spec()
    &&& entry.1.collection_name@ == index.collection_name@
    &&& entry.1.options == index.options
    &&& entry.1.field_names@.len() == index.field_names@.len()
    &&& forall|i: int|
        0 <= i < index.field_names@.len() ==> (#[trigger] entry.1.field_names@[i])@
            == index.field_names@[i].name@
}

/// The tables of the first collections stand first among the tables of
/// more collections.
pub proof fn lemma_tables_stand_first(collections: Seq<Collection>, i: int, j: int)
    requires
        0 <= i <= j,
    ensures
        tables_upto(collections, i).len() <= tables_upto(collections, j).len(),
        forall|p: int|
            0 <= p < tables_upto(collections, i).len() ==> tables_upto(collections, j)[p]
                == tables_upto(collections, i)[p],
    decreases j - i,
{
    if i < j {
        lemma_tables_stand_first(collections, i, j - 1);
    }
}

/// The tables of the first collections depend on those collections only.
pub proof fn lemma_tables_prefix(a: Seq<Collection>, b: Seq<Collection>, upto: int)
    requires
        0 <= upto <= a.len(),
        upto <= b.len(),
        forall|i: int| 0 <= i < upto ==> a[i] == b[i],
    ensures
        tables_upto(a, upto) == tables_upto(b, upto),
    decreases upto,
{
    if upto > 0 {
        lemma_tables_prefix(a, b, upto - 1);
    }
}

/// The table of each collection is among the tables of the database.
pub proof fn lemma_table_listed(collections: Seq<Collection>, i: int, upto: int)
    requires
        0 <= i < upto <= collections.len(),
    ensures
        exists|k: int|
            0 <= k < tables_upto(collections, upto).len() && tables_upto(collections, upto)[k]
                == collections[i].name->0@ && k == tables_upto(collections, i).len(),
    decreases upto,
{
    if i < upto - 1 {
        lemma_table_listed(collections, i, upto - 1);
        let k = tables_upto(collections, i).len() as int;
        assert(tables_upto(collections, upto)[k] == tables_upto(collections, upto - 1)[k]);
    } else {
        let k = tables_upto(collections, i).len() as int;
        assert(tables_upto(collections, upto)[k] == collections[i].name->0@);
    }
}

/// The tables of the first collections are no fewer than those of fewer.
pub proof fn lemma_tables_grow(collections: Seq<Collection>, i: int, j: int)
    requires
        0 <= i <= j <= collections.len(),
    ensures
        tables_upto(collections, i).len() <= tables_upto(collections, j).len(),
        i < j ==> tables_upto(collections, i).len() < tables_upto(collections, j).len(),
    decreases j - i,
{
    if i < j {
        lemma_tables_grow(collections, i, j - 1);
    }
}

/// In a usable schema no two collections have one name.
pub proof fn lemma_names_differ(collections: Seq<Collection>, i: int, j: int)
    requires
        usable(collections),
        0 <= i < collections.len(),
        0 <= j < collections.len(),
        collections[i].name->0@ == collections[j].name->0@,
    ensures
        i == j,
{
    let n = collections.len() as int;
    let tables = tables_upto(collections, n);
    lemma_table_listed(collections, i, n);
    lemma_table_listed(collections, j, n);
    if i < j {
        lemma_tables_grow(collections, i, j);
    } else if j < i {
        lemma_tables_grow(collections, j, i);
    }
}

} // verus!
