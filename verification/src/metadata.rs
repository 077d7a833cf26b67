//! The description of a schema, as it is stored with the data: which
//! indexes each collection has, and which fields its documents have. A
//! database is opened only where the stored description is that of the live
//! schema.

use vstd::prelude::*;
use crate::document::str_eq;
use crate::error::DbError;
use crate::index::{Index, IndexOptions};

verus! {

/// The description of an index.
#[derive(Debug)]
pub struct IndexDescription {
    pub collection_name: String,
    pub field_names: Vec<String>,
    pub options: IndexOptions,
    /// The name of the table that holds the index.
    pub table_name: String,
}

/// The description of the documents of a collection: the name of each field
/// and the name of its type. It is a map from the names of the fields: no
/// field is named twice, and the order of the fields says nothing.
#[derive(Debug)]
pub struct CollectionDescription {
    pub fields: Vec<(String, String)>,
}

/// The description of a schema. The collections are a map from their
/// names, and the indexes a set in which each has a table of its own: in
/// neither does the order say anything.
#[derive(Debug)]
pub struct MetadataDocument {
    /// The version of the description itself.
    pub version: u64,
    /// The version of the schema, which is raised when the schema changes.
    pub schema_version: u64,
    /// The indexes, each under the name of its collection.
    pub indices_by_collection: Vec<(String, IndexDescription)>,
    /// The collections, each under its name.
    pub collections: Vec<(String, CollectionDescription)>,
}

/// Whether two lists of strings hold the same strings in the same order.
pub open spec fn same_strings(a: Seq<String>, b: Seq<String>) -> bool {
    a.len() == b.len() && forall|i: int| 0 <= i < a.len() ==> (#[trigger] a[i])@ == b[i]@
}

/// Whether two descriptions of an index say the same.
pub open spec fn same_index(a: IndexDescription, b: IndexDescription) -> bool {
    &&& a.collection_name@ == b.collection_name@
    &&& same_strings(a.field_names@, b.field_names@)
    &&& a.options == b.options
    &&& a.table_name@ == b.table_name@
}

/// Whether `list` has the field `field` with its type.
pub open spec fn field_listed(field: (String, String), list: Seq<(String, String)>) -> bool {
    exists|j: int| 0 <= j < list.len() && (#[trigger] list[j]).0@ == field.0@ && list[j].1@ == field.1@
}

/// Whether `b` has every field of `a` with its type.
pub open spec fn fields_within(a: Seq<(String, String)>, b: Seq<(String, String)>) -> bool {
    forall|i: int| 0 <= i < a.len() ==> field_listed(#[trigger] a[i], b)
}

/// Whether two lists of fields name the same fields with the same types.
pub open spec fn same_fields(a: Seq<(String, String)>, b: Seq<(String, String)>) -> bool {
    fields_within(a, b) && fields_within(b, a)
}

/// The names of the fields of a list.
pub open spec fn field_names(fields: Seq<(String, String)>) -> Seq<Seq<char>> {
    Seq::new(fields.len(), |i: int| fields[i].0@)
}

/// The names of the collections of a list.
pub open spec fn collection_names(list: Seq<(String, CollectionDescription)>) -> Seq<Seq<char>> {
    Seq::new(list.len(), |i: int| list[i].0@)
}

/// The names of the tables of the indexes of a list.
pub open spec fn index_table_names(list: Seq<(String, IndexDescription)>) -> Seq<Seq<char>> {
    Seq::new(list.len(), |i: int| list[i].1.table_name@)
}

/// Whether no name of `names` occurs twice.
fn occur_once(names: &Vec<String>) -> (r: bool)
    ensures
        r == Seq::new(names@.len(), |i: int| names@[i]@).no_duplicates(),
{
    let ghost views = Seq::new(names@.len(), |i: int| names@[i]@);
    let mut i: usize = 0;
    while i < names.len()
        invariant
            i <= names.len(),
            views == Seq::new(names@.len(), |i: int| names@[i]@),
            forall|a: int, b: int| 0 <= a < b < i ==> views[a] != views[b],
        decreases names.len() - i,
    {
        let mut j: usize = 0;
        while j < i
            invariant
                j <= i < names.len(),
                views == Seq::new(names@.len(), |i: int| names@[i]@),
                forall|a: int| 0 <= a < j ==> views[a] != views[i as int],
            decreases i - j,
        {
            if str_eq(names[j].as_str(), names[i].as_str()) {
                assert(views[j as int] == views[i as int]);
                return false;
            }
            j += 1;
        }
        i += 1;
    }
    true
}

/// Whether two entries describe the same index of the same collection.
pub open spec fn same_index_entry(
    a: (String, IndexDescription),
    b: (String, IndexDescription),
) -> bool {
    a.0@ == b.0@ && same_index(a.1, b.1)
}

/// Whether two entries describe the same collection.
pub open spec fn same_collection_entry(
    a: (String, CollectionDescription),
    b: (String, CollectionDescription),
) -> bool {
    a.0@ == b.0@ && same_fields(a.1.fields@, b.1.fields@)
}

/// Whether `entry` is an entry of `list`.
pub open spec fn index_listed(
    entry: (String, IndexDescription),
    list: Seq<(String, IndexDescription)>,
) -> bool {
    exists|j: int| 0 <= j < list.len() && same_index_entry(entry, #[trigger] list[j])
}

/// Whether `entry` is an entry of `list`.
pub open spec fn collection_listed(
    entry: (String, CollectionDescription),
    list: Seq<(String, CollectionDescription)>,
) -> bool {
    exists|j: int| 0 <= j < list.len() && same_collection_entry(entry, #[trigger] list[j])
}

/// Whether every entry of `a` is an entry of `b`.
pub open spec fn indices_within(
    a: Seq<(String, IndexDescription)>,
    b: Seq<(String, IndexDescription)>,
) -> bool {
    forall|i: int| 0 <= i < a.len() ==> index_listed(#[trigger] a[i], b)
}

/// Whether every entry of `a` is an entry of `b`.
pub open spec fn collections_within(
    a: Seq<(String, CollectionDescription)>,
    b: Seq<(String, CollectionDescription)>,
) -> bool {
    forall|i: int| 0 <= i < a.len() ==> collection_listed(#[trigger] a[i], b)
}

fn strings_agree(a: &Vec<String>, b: &Vec<String>) -> (r: bool)
    ensures
        r == same_strings(a@, b@),
{
    if a.len() != b.len() {
        return false;
    }
    let mut i: usize = 0;
    while i < a.len()
        invariant
            i <= a.len(),
            a.len() == b.len(),
            forall|j: int| 0 <= j < i ==> (#[trigger] a@[j])@ == b@[j]@,
        decreases a.len() - i,
    {
        if !str_eq(a[i].as_str(), b[i].as_str()) {
            return false;
        }
        i += 1;
    }
    true
}

fn field_occurs(field: &(String, String), list: &Vec<(String, String)>) -> (r: bool)
    ensures
        r == field_listed(*field, list@),
{
    let mut j: usize = 0;
    while j < list.len()
        invariant
            j <= list.len(),
            forall|m: int|
                0 <= m < j ==> !((#[trigger] list@[m]).0@ == field.0@ && list@[m].1@ == field.1@),
        decreases list.len() - j,
    {
        if str_eq(field.0.as_str(), list[j].0.as_str()) && str_eq(field.1.as_str(), list[j].1.as_str()) {
            return true;
        }
        j += 1;
    }
    false
}

fn fields_contained(a: &Vec<(String, String)>, b: &Vec<(String, String)>) -> (r: bool)
    ensures
        r == fields_within(a@, b@),
{
    let mut i: usize = 0;
    while i < a.len()
        invariant
            i <= a.len(),
            forall|k: int| 0 <= k < i ==> field_listed(#[trigger] a@[k], b@),
        decreases a.len() - i,
    {
        if !field_occurs(&a[i], b) {
            return false;
        }
        i += 1;
    }
    true
}

fn fields_agree(a: &Vec<(String, String)>, b: &Vec<(String, String)>) -> (r: bool)
    ensures
        r == same_fields(a@, b@),
{
    fields_contained(a, b) && fields_contained(b, a)
}

fn index_agrees(a: &IndexDescription, b: &IndexDescription) -> (r: bool)
    ensures
        r == same_index(*a, *b),
{
    str_eq(a.collection_name.as_str(), b.collection_name.as_str()) && strings_agree(
        &a.field_names,
        &b.field_names,
    ) && a.options.unique == b.options.unique && a.options.primary == b.options.primary && str_eq(
        a.table_name.as_str(),
        b.table_name.as_str(),
    )
}

fn index_occurs(entry: &(String, IndexDescription), list: &Vec<(String, IndexDescription)>) -> (r:
    bool)
    ensures
        r == index_listed(*entry, list@),
{
    let mut j: usize = 0;
    while j < list.len()
        invariant
            j <= list.len(),
            forall|m: int| 0 <= m < j ==> !same_index_entry(*entry, #[trigger] list@[m]),
        decreases list.len() - j,
    {
        if str_eq(entry.0.as_str(), list[j].0.as_str()) && index_agrees(&entry.1, &list[j].1) {
            return true;
        }
        j += 1;
    }
    false
}

fn collection_occurs(
    entry: &(String, CollectionDescription),
    list: &Vec<(String, CollectionDescription)>,
) -> (r: bool)
    ensures
        r == collection_listed(*entry, list@),
{
    let mut j: usize = 0;
    while j < list.len()
        invariant
            j <= list.len(),
            forall|m: int| 0 <= m < j ==> !same_collection_entry(*entry, #[trigger] list@[m]),
        decreases list.len() - j,
    {
        if str_eq(entry.0.as_str(), list[j].0.as_str()) && fields_agree(
            &entry.1.fields,
            &list[j].1.fields,
        ) {
            return true;
        }
        j += 1;
    }
    false
}

fn indices_contained(a: &Vec<(String, IndexDescription)>, b: &Vec<(String, IndexDescription)>) -> (r:
    bool)
    ensures
        r == indices_within(a@, b@),
{
    let mut i: usize = 0;
    while i < a.len()
        invariant
            i <= a.len(),
            forall|k: int| 0 <= k < i ==> index_listed(#[trigger] a@[k], b@),
        decreases a.len() - i,
    {
        if !index_occurs(&a[i], b) {
            return false;
        }
        i += 1;
    }
    true
}

fn collections_contained(
    a: &Vec<(String, CollectionDescription)>,
    b: &Vec<(String, CollectionDescription)>,
) -> (r: bool)
    ensures
        r == collections_within(a@, b@),
{
    let mut i: usize = 0;
    while i < a.len()
        invariant
            i <= a.len(),
            forall|k: int| 0 <= k < i ==> collection_listed(#[trigger] a@[k], b@),
        decreases a.len() - i,
    {
        if !collection_occurs(&a[i], b) {
            return false;
        }
        i += 1;
    }
    true
}

impl CollectionDescription {
    /// No field is named twice.
    pub open spec fn wf(&self) -> bool {
        field_names(self.fields@).no_duplicates()
    }

    /// Whether no field is named twice.
    pub fn well_formed(&self) -> (r: bool)
        ensures
            r == self.wf(),
    {
        let mut names: Vec<String> = Vec::new();
        let mut i: usize = 0;
        while i < self.fields.len()
            invariant
                i <= self.fields.len(),
                names@.len() == i,
                forall|j: int| 0 <= j < i ==> (#[trigger] names@[j])@ == self.fields@[j].0@,
            decreases self.fields.len() - i,
        {
            names.push(self.fields[i].0.clone());
            i += 1;
        }
        assert(Seq::new(names@.len(), |i: int| names@[i]@) =~= field_names(self.fields@));
        occur_once(&names)
    }
}

impl MetadataDocument {
    /// No collection is described twice, no collection has a field twice,
    /// and no two indexes have one table.
    pub open spec fn wf(&self) -> bool {
        &&& collection_names(self.collections@).no_duplicates()
        &&& forall|i: int| 0 <= i < self.collections@.len() ==> (#[trigger] self.collections@[i]).1.wf()
        &&& index_table_names(self.indices_by_collection@).no_duplicates()
    }

    /// Whether the description is well formed. A description that was read
    /// back from a store is checked before it is compared.
    pub fn well_formed(&self) -> (r: bool)
        ensures
            r == self.wf(),
    {
        let mut names: Vec<String> = Vec::new();
        let mut i: usize = 0;
        while i < self.collections.len()
            invariant
                i <= self.collections.len(),
                names@.len() == i,
                forall|j: int| 0 <= j < i ==> (#[trigger] names@[j])@ == self.collections@[j].0@,
                forall|j: int| 0 <= j < i ==> (#[trigger] self.collections@[j]).1.wf(),
            decreases self.collections.len() - i,
        {
            if !self.collections[i].1.well_formed() {
                return false;
            }
            names.push(self.collections[i].0.clone());
            i += 1;
        }
        assert(Seq::new(names@.len(), |i: int| names@[i]@) =~= collection_names(self.collections@));
        if !occur_once(&names) {
            return false;
        }
        let mut tables: Vec<String> = Vec::new();
        let mut k: usize = 0;
        while k < self.indices_by_collection.len()
            invariant
                k <= self.indices_by_collection.len(),
                tables@.len() == k,
                forall|j: int|
                    0 <= j < k ==> (#[trigger] tables@[j])@ == self.indices_by_collection@[j].1.table_name@,
            decreases self.indices_by_collection.len() - k,
        {
            tables.push(self.indices_by_collection[k].1.table_name.clone());
            k += 1;
        }
        assert(Seq::new(tables@.len(), |i: int| tables@[i]@) =~= index_table_names(
            self.indices_by_collection@,
        ));
        occur_once(&tables)
    }

    /// Whether the two descriptions say the same of the schema: they
    /// describe the same indexes and the same collections.
    pub open spec fn same_schema(&self, other: &Self) -> bool {
        &&& indices_within(self.indices_by_collection@, other.indices_by_collection@)
        &&& indices_within(other.indices_by_collection@, self.indices_by_collection@)
        &&& collections_within(self.collections@, other.collections@)
        &&& collections_within(other.collections@, self.collections@)
    }

    /// Compare the description of the live schema with a stored one. The
    /// database may be opened where the two are of one version and say the
    /// same of the schema.
    pub fn compare(&self, other: &Self) -> (r: Result<(), DbError>)
        ensures
            match r {
                Ok(_) => self.version == other.version && self.same_schema(other),
                Err(e) => e is SchemaDrift && !(self.version == other.version && self.same_schema(
                    other,
                )),
            },
    {
        if self.version != other.version {
            return Err(DbError::SchemaDrift);
        }
        if indices_contained(&self.indices_by_collection, &other.indices_by_collection)
            && indices_contained(&other.indices_by_collection, &self.indices_by_collection)
            && collections_contained(&self.collections, &other.collections)
            && collections_contained(&other.collections, &self.collections) {
            return Ok(());
        }
        Err(DbError::SchemaDrift)
    }
}

impl Index {
    /// The description of the index.
    pub fn describe(&self) -> (d: IndexDescription)
        ensures
            d.collection_name@ == self.collection_name@,
            d.options == self.options,
            d.table_name@ == self.table_name_spec(),
            d.field_names@.len() == self.field_names@.len(),
            forall|i: int|
                0 <= i < self.field_names@.len() ==> (#[trigger] d.field_names@[i])@
                    == self.field_names@[i].name@,
    {
        let mut field_names: Vec<String> = Vec::new();
        let mut i: usize = 0;
        while i < self.field_names.len()
            invariant
                i <= self.field_names.len(),
                field_names@.len() == i,
                forall|j: int| 0 <= j < i ==> (#[trigger] field_names@[j])@ == self.field_names@[j].name@,
            decreases self.field_names.len() - i,
        {
            field_names.push(self.field_names[i].name.clone());
            i += 1;
        }
        IndexDescription {
            collection_name: self.collection_name.clone(),
            field_names,
            options: self.options,
            table_name: self.table_name(),
        }
    }
}

} // verus!
