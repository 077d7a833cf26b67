//! Documents and queries.
//!
//! The database sees a document through its extractors only: the encoded
//! value of each named field, and an opaque body. A stored document is the
//! packed list of its field names and values, followed by its body.

use vstd::prelude::*;
use vstd::string::StrSliceExecFns;
use vstd::utf8::{decode_utf8, encode_utf8, valid_utf8};
use crate::query::Param;
use crate::wire::{
    block_views, lemma_unpack_pack, pack, pack_blocks, packable, unpack, unpack_blocks,
};

verus! {

/// One field of a document: its name and its encoded value.
#[derive(Debug)]
pub struct Field {
    pub name: String,
    pub value: Vec<u8>,
}

/// A document: its fields, in the order of their declaration, and its body.
#[derive(Debug)]
pub struct Document {
    pub fields: Vec<Field>,
    pub body: Vec<u8>,
}

/// A document as contracts see it.
pub struct DocumentView {
    pub fields: Seq<(Seq<char>, Seq<u8>)>,
    pub body: Seq<u8>,
}

impl View for Field {
    type V = (Seq<char>, Seq<u8>);

    open spec fn view(&self) -> (Seq<char>, Seq<u8>) {
        (self.name@, self.value@)
    }
}

impl View for Document {
    type V = DocumentView;

    open spec fn view(&self) -> DocumentView {
        DocumentView { fields: Seq::new(self.fields@.len(), |i: int| self.fields@[i]@), body: self.body@ }
    }
}

impl DocumentView {
    /// The value of the first field named `name`, from position `from` on.
    pub open spec fn field_from(self, name: Seq<char>, from: int) -> Option<Seq<u8>>
        decreases self.fields.len() - from,
    {
        if from < 0 || from >= self.fields.len() {
            None
        } else if self.fields[from].0 == name {
            Some(self.fields[from].1)
        } else {
            self.field_from(name, from + 1)
        }
    }

    /// The value of the field named `name`, if the document has one.
    pub open spec fn field(self, name: Seq<char>) -> Option<Seq<u8>> {
        self.field_from(name, 0)
    }

    /// The list of blocks that the document is stored as: the name and the
    /// value of each field, then the body.
    pub open spec fn blocks(self) -> Seq<Seq<u8>> {
        Seq::new(
            2 * self.fields.len() + 1,
            |i: int|
                if i == 2 * self.fields.len() {
                    self.body
                } else if i % 2 == 0 {
                    encode_utf8(self.fields[i / 2].0)
                } else {
                    self.fields[i / 2].1
                },
        )
    }

    /// The document that a list of blocks stands for, if it stands for one.
    pub open spec fn from_blocks(blocks: Seq<Seq<u8>>) -> Option<DocumentView> {
        if blocks.len() % 2 == 1 && (forall|j: int|
            0 <= j < blocks.len() / 2 ==> valid_utf8(#[trigger] blocks[2 * j])) {
            Some(
                DocumentView {
                    fields: Seq::new(
                        blocks.len() / 2,
                        |j: int| (decode_utf8(blocks[2 * j]), blocks[2 * j + 1]),
                    ),
                    body: blocks.last(),
                },
            )
        } else {
            None
        }
    }

    /// The bytes that the document is stored as.
    pub open spec fn encoding(self) -> Seq<u8> {
        pack(self.blocks())
    }

    /// The document that `bytes` is the stored form of, if it is one.
    pub open spec fn decoding(bytes: Seq<u8>) -> Option<DocumentView> {
        match unpack(bytes) {
            Some(blocks) => Self::from_blocks(blocks),
            None => None,
        }
    }

    /// A list of blocks read back gives the document that wrote it.
    pub proof fn lemma_blocks_round_trip(self)
        ensures
            Self::from_blocks(self.blocks()) == Some(self),
    {
        broadcast use vstd::utf8::encode_utf8_valid_utf8;
        broadcast use vstd::utf8::encode_utf8_decode_utf8;

        let blocks = self.blocks();
        assert forall|j: int| 0 <= j < blocks.len() / 2 implies valid_utf8(
            #[trigger] blocks[2 * j],
        ) by {
            assert(blocks[2 * j] == encode_utf8(self.fields[j].0));
        }
        let back = Self::from_blocks(blocks)->0;
        assert(back.fields =~= self.fields) by {
            assert forall|j: int| 0 <= j < self.fields.len() implies back.fields[j]
                == self.fields[j] by {
                assert(blocks[2 * j] == encode_utf8(self.fields[j].0));
                assert(blocks[2 * j + 1] == self.fields[j].1);
            }
        }
    }
}

/// What is stored can be read back: decoding the stored form of a document
/// gives the document.
pub proof fn lemma_document_round_trip(doc: DocumentView)
    requires
        packable(doc.blocks()),
    ensures
        DocumentView::decoding(doc.encoding()) == Some(doc),
{
    lemma_unpack_pack(doc.blocks());
    doc.lemma_blocks_round_trip();
}

/// `String::from_utf8`: the string that `bytes` is the UTF-8 encoding of.
/// It is there exactly when `bytes` is valid UTF-8.
#[verifier::external_body]
pub(crate) fn string_from_utf8(bytes: Vec<u8>) -> (r: Option<String>)
    ensures
        r is Some <==> valid_utf8(bytes@),
        r matches Some(s) ==> s@ == decode_utf8(bytes@),
{
    String::from_utf8(bytes).ok()
}

impl Document {
    /// A document without fields.
    pub fn new(body: Vec<u8>) -> (doc: Self)
        ensures
            doc@ == (DocumentView { fields: Seq::empty(), body: body@ }),
    {
        let doc = Document { fields: Vec::new(), body };
        assert(doc@.fields =~= Seq::empty());
        doc
    }

    /// The document with one more field, after those it has.
    pub fn with_field(self, name: &str, value: Vec<u8>) -> (doc: Self)
        ensures
            doc@ == (DocumentView { fields: self@.fields.push((name@, value@)), body: self@.body }),
    {
        let mut doc = self;
        doc.fields.push(Field { name: name.to_owned(), value });
        assert(doc@.fields =~= self@.fields.push((name@, value@)));
        doc
    }

    /// The value of the field named `name`, if the document has one.
    pub fn field(&self, name: &str) -> (r: Option<&Vec<u8>>)
        ensures
            match r {
                Some(value) => self@.field(name@) == Some(value@),
                None => self@.field(name@) is None,
            },
    {
        let mut i: usize = 0;
        while i < self.fields.len()
            invariant
                i <= self.fields.len(),
                self@.field(name@) == self@.field_from(name@, i as int),
            decreases self.fields.len() - i,
        {
            if str_eq(self.fields[i].name.as_str(), name) {
                return Some(&self.fields[i].value);
            }
            i += 1;
        }
        None
    }

    /// The bytes that the document is stored as.
    pub fn encode(&self) -> (bytes: Vec<u8>)
        ensures
            bytes@ == self@.encoding(),
            DocumentView::decoding(bytes@) == Some(self@),
    {
        let mut blocks: Vec<Vec<u8>> = Vec::new();
        let mut i: usize = 0;
        while i < self.fields.len()
            invariant
                i <= self.fields.len(),
                blocks@.len() == 2 * i,
                forall|j: int| 0 <= j < 2 * i ==> (#[trigger] blocks@[j])@ == self@.blocks()[j],
            decreases self.fields.len() - i,
        {
            blocks.push(self.fields[i].name.as_str().as_bytes_vec());
            blocks.push(vstd::slice::slice_to_vec(self.fields[i].value.as_slice()));
            i += 1;
        }
        blocks.push(vstd::slice::slice_to_vec(self.body.as_slice()));
        assert(block_views(blocks@) =~= self@.blocks());
        let bytes = pack_blocks(&blocks);
        proof {
            lemma_document_round_trip(self@);
        }
        bytes
    }

    /// The document that `bytes` is the stored form of, if it is one.
    pub fn decode(bytes: &[u8]) -> (r: Option<Document>)
        ensures
            match r {
                Some(doc) => DocumentView::decoding(bytes@) == Some(doc@),
                None => DocumentView::decoding(bytes@) is None,
            },
    {
        let mut blocks = match unpack_blocks(bytes) {
            Some(blocks) => blocks,
            None => {
                return None;
            },
        };
        let ghost all = block_views(blocks@);
        if blocks.len() % 2 != 1 {
            return None;
        }
        let body = match blocks.pop() {
            Some(body) => body,
            None => {
                return None;
            },
        };
        let total = blocks.len();
        let count = total / 2;
        let mut fields: Vec<Field> = Vec::new();
        let mut i: usize = 0;
        while i < count
            invariant
                i <= count,
                total == 2 * count,
                blocks@.len() == total,
                unpack(bytes@) == Some(all),
                all.len() == 2 * count + 1,
                forall|j: int| 0 <= j < 2 * count ==> (#[trigger] blocks@[j])@ == all[j],
                fields@.len() == i,
                forall|j: int| 0 <= j < i ==> valid_utf8(#[trigger] all[2 * j]),
                forall|j: int|
                    0 <= j < i ==> (#[trigger] fields@[j])@ == (decode_utf8(all[2 * j]), all[2 * j + 1]),
            decreases count - i,
        {
            let name_bytes = vstd::slice::slice_to_vec(blocks[2 * i].as_slice());
            let value = vstd::slice::slice_to_vec(blocks[2 * i + 1].as_slice());
            assert(name_bytes@ == all[2 * i as int]);
            let name = match string_from_utf8(name_bytes) {
                Some(name) => name,
                None => {
                    assert(!valid_utf8(all[2 * i as int]));
                    return None;
                },
            };
            fields.push(Field { name, value });
            i += 1;
        }
        let doc = Document { fields, body };
        proof {
            let expected = DocumentView::from_blocks(all)->0;
            assert(doc@.fields =~= expected.fields);
            assert(doc@.body == all.last());
        }
        Some(doc)
    }
}

/// A constraint on the field of a given name.
#[derive(Debug)]
pub struct Constraint {
    pub field: String,
    pub param: Param,
}

/// A query: constraints on fields, at most one on each field. A field
/// without a constraint is unconstrained.
#[derive(Debug)]
pub struct Query {
    pub constraints: Vec<Constraint>,
}

impl Default for Query {
    fn default() -> (q: Self)
        ensures
            q.constraints@ == Seq::<Constraint>::empty(),
            q.wf(),
    {
        Query { constraints: Vec::new() }
    }
}

impl Query {
    /// No field is constrained twice: the constraints are a map from the
    /// names of fields.
    pub open spec fn wf(&self) -> bool {
        forall|i: int, j: int|
            0 <= i < j < self.constraints@.len() ==> (#[trigger] self.constraints@[i]).field@ != (
            #[trigger] self.constraints@[j]).field@
    }

    /// The position of the first constraint on the field `name`, from
    /// position `from` on.
    pub open spec fn position_from(&self, name: Seq<char>, from: int) -> Option<int>
        decreases self.constraints@.len() - from,
    {
        if from < 0 || from >= self.constraints@.len() {
            None
        } else if self.constraints@[from].field@ == name {
            Some(from)
        } else {
            self.position_from(name, from + 1)
        }
    }

    /// The constraint on the field `name`, if the query has one.
    pub open spec fn param(&self, name: Seq<char>) -> Option<Param> {
        match self.position_from(name, 0) {
            Some(i) => Some(self.constraints@[i].param),
            None => None,
        }
    }

    /// Whether the document `doc` has each constrained field and meets each
    /// constraint.
    pub open spec fn admits(&self, doc: DocumentView) -> bool {
        forall|i: int|
            0 <= i < self.constraints@.len() ==> match doc.field(
                (#[trigger] self.constraints@[i]).field@,
            ) {
                Some(value) => self.constraints@[i].param.test_spec(value),
                None => false,
            }
    }

    pub proof fn lemma_position(&self, name: Seq<char>, from: int)
        requires
            0 <= from,
        ensures
            match self.position_from(name, from) {
                Some(i) => from <= i < self.constraints@.len() && self.constraints@[i].field@
                    == name,
                None => forall|j: int|
                    from <= j < self.constraints@.len() ==> (#[trigger] self.constraints@[j]).field@
                        != name,
            },
        decreases self.constraints@.len() - from,
    {
        if from < self.constraints@.len() && self.constraints@[from].field@ != name {
            self.lemma_position(name, from + 1);
        }
    }

    /// The query with the field `name` constrained by `param`, in place of
    /// an earlier constraint on that field where there is one.
    pub fn with(self, name: &str, param: Param) -> (q: Self)
        ensures
            q.param(name@) == Some(param),
            forall|other: Seq<char>| other != name@ ==> q.param(other) == self.param(other),
            self.wf() ==> q.wf(),
    {
        let mut q = self;
        let mut i: usize = 0;
        while i < q.constraints.len()
            invariant
                i <= q.constraints.len(),
                q == self,
                self.position_from(name@, 0) == self.position_from(name@, i as int),
                forall|j: int| 0 <= j < i ==> (#[trigger] q.constraints@[j]).field@ != name@,
            decreases q.constraints.len() - i,
        {
            if str_eq(q.constraints[i].field.as_str(), name) {
                let ghost before = q;
                q.constraints.set(i, Constraint { field: name.to_owned(), param });
                proof {
                    lemma_replaced(&before, &q, i as int, name@);
                    if before.wf() {
                        assert forall|a: int, b: int| 0 <= a < b < q.constraints@.len() implies (
                        #[trigger] q.constraints@[a]).field@ != (#[trigger] q.constraints@[b]).field@ by {
                            assert(q.constraints@[a].field@ == before.constraints@[a].field@);
                            assert(q.constraints@[b].field@ == before.constraints@[b].field@);
                        }
                    }
                }
                return q;
            }
            i += 1;
        }
        let ghost before = q;
        q.constraints.push(Constraint { field: name.to_owned(), param });
        proof {
            lemma_pushed(&before, &q, name@);
            if before.wf() {
                assert forall|a: int, b: int| 0 <= a < b < q.constraints@.len() implies (
                #[trigger] q.constraints@[a]).field@ != (#[trigger] q.constraints@[b]).field@ by {
                    if b < before.constraints@.len() {
                        assert(q.constraints@[a] == before.constraints@[a]);
                        assert(q.constraints@[b] == before.constraints@[b]);
                    } else {
                        assert(q.constraints@[a] == before.constraints@[a]);
                    }
                }
            }
        }
        q
    }

    /// The constraint on the field `name`, if the query has one.
    pub fn get(&self, name: &str) -> (r: Option<&Param>)
        ensures
            match r {
                Some(p) => self.param(name@) == Some(*p),
                None => self.param(name@) is None,
            },
    {
        let mut i: usize = 0;
        while i < self.constraints.len()
            invariant
                i <= self.constraints.len(),
                self.position_from(name@, 0) == self.position_from(name@, i as int),
            decreases self.constraints.len() - i,
        {
            if str_eq(self.constraints[i].field.as_str(), name) {
                return Some(&self.constraints[i].param);
            }
            i += 1;
        }
        None
    }
}

/// A lookup passes over the constraints on other fields: two queries that
/// agree on the names of their constraints find a name at one position.
proof fn lemma_same_names(a: &Query, b: &Query, name: Seq<char>, from: int)
    requires
        0 <= from,
        a.constraints@.len() == b.constraints@.len(),
        forall|j: int|
            0 <= j < a.constraints@.len() ==> (#[trigger] a.constraints@[j]).field@
                == b.constraints@[j].field@,
    ensures
        a.position_from(name, from) == b.position_from(name, from),
    decreases a.constraints@.len() - from,
{
    if from < a.constraints@.len() {
        assert(a.constraints@[from].field@ == b.constraints@[from].field@);
        if a.constraints@[from].field@ != name {
            lemma_same_names(a, b, name, from + 1);
        }
    }
}

proof fn lemma_replaced(before: &Query, after: &Query, i: int, name: Seq<char>)
    requires
        0 <= i < before.constraints@.len(),
        before.position_from(name, 0) == before.position_from(name, i),
        before.constraints@[i].field@ == name,
        after.constraints@.len() == before.constraints@.len(),
        after.constraints@[i].field@ == name,
        forall|j: int|
            0 <= j < before.constraints@.len() && j != i ==> #[trigger] after.constraints@[j]
                == before.constraints@[j],
    ensures
        after.param(name) == Some(after.constraints@[i].param),
        forall|other: Seq<char>| other != name ==> after.param(other) == before.param(other),
{
    assert forall|j: int| 0 <= j < before.constraints@.len() implies (
    #[trigger] before.constraints@[j]).field@ == after.constraints@[j].field@ by {
        if j != i {
            assert(after.constraints@[j] == before.constraints@[j]);
        }
    }
    lemma_same_names(before, after, name, 0);
    before.lemma_position(name, 0);
    before.lemma_position(name, i);
    assert forall|other: Seq<char>| other != name implies after.param(other) == before.param(
        other,
    ) by {
        lemma_same_names(before, after, other, 0);
        before.lemma_position(other, 0);
        match before.position_from(other, 0) {
            Some(k) => {
                assert(after.constraints@[k] == before.constraints@[k]);
            },
            None => {},
        }
    }
}

/// A constraint added at the end is found where no earlier constraint has
/// its name.
proof fn lemma_appended(before: &Query, after: &Query, name: Seq<char>, from: int)
    requires
        0 <= from <= before.constraints@.len(),
        after.constraints@ == before.constraints@.push(after.constraints@.last()),
        after.constraints@.len() == before.constraints@.len() + 1,
    ensures
        after.position_from(name, from) == match before.position_from(name, from) {
            Some(k) => Some(k),
            None => if after.constraints@.last().field@ == name {
                Some(before.constraints@.len() as int)
            } else {
                None
            },
        },
    decreases before.constraints@.len() - from,
{
    if from < before.constraints@.len() {
        assert(after.constraints@[from] == before.constraints@[from]);
        if before.constraints@[from].field@ != name {
            lemma_appended(before, after, name, from + 1);
        }
    } else {
        assert(after.position_from(name, from + 1) is None);
    }
}

proof fn lemma_pushed(before: &Query, after: &Query, name: Seq<char>)
    requires
        before.position_from(name, 0) == before.position_from(
            name,
            before.constraints@.len() as int,
        ),
        after.constraints@ == before.constraints@.push(after.constraints@.last()),
        after.constraints@.last().field@ == name,
    ensures
        after.param(name) == Some(after.constraints@.last().param),
        forall|other: Seq<char>| other != name ==> after.param(other) == before.param(other),
{
    lemma_appended(before, after, name, 0);
    assert forall|other: Seq<char>| other != name implies after.param(other) == before.param(
        other,
    ) by {
        lemma_appended(before, after, other, 0);
        before.lemma_position(other, 0);
        match before.position_from(other, 0) {
            Some(k) => {
                assert(after.constraints@[k] == before.constraints@[k]);
            },
            None => {},
        }
    }
}

/// A type of documents that can be tested against a query.
pub trait Queryable {
    type DocumentQuery: Default;

    /// The query that every document matches.
    fn query() -> Self::DocumentQuery;

    /// Whether the document matches the query.
    fn matches(&self, query: &Self::DocumentQuery) -> bool;
}

impl Queryable for Document {
    type DocumentQuery = Query;

    fn query() -> (q: Query)
        ensures
            q.constraints@ == Seq::<Constraint>::empty(),
            q.wf(),
    {
        Query { constraints: Vec::new() }
    }

    /// Whether the document has each constrained field and meets each
    /// constraint.
    fn matches(&self, query: &Query) -> (r: bool)
        ensures
            r == query.admits(self@),
    {
        let mut i: usize = 0;
        while i < query.constraints.len()
            invariant
                i <= query.constraints.len(),
                forall|j: int|
                    0 <= j < i ==> match self@.field((#[trigger] query.constraints@[j]).field@) {
                        Some(value) => query.constraints@[j].param.test_spec(value),
                        None => false,
                    },
            decreases query.constraints.len() - i,
        {
            let constraint = &query.constraints[i];
            match self.field(constraint.field.as_str()) {
                Some(value) => {
                    if !constraint.param.test(value.as_slice()) {
                        return false;
                    }
                },
                None => {
                    return false;
                },
            }
            i += 1;
        }
        true
    }
}

/// Whether two string slices hold the same characters.
pub fn str_eq(a: &str, b: &str) -> (r: bool)
    ensures
        r == (a@ == b@),
{
    broadcast use vstd::utf8::encode_utf8_decode_utf8;

    let r = crate::order::bytes_eq(a.as_bytes(), b.as_bytes());
    proof {
        if r {
            assert(decode_utf8(encode_utf8(a@)) == decode_utf8(encode_utf8(b@)));
        }
    }
    r
}

} // verus!
