//! Documents: the tree-shaped form in which records come in from outside and
//! go out again.
use vstd::prelude::*;
use vstd::string::*;
use vstd::utf8::*;
use crate::entries::lemma_neighbours_ascend;
use crate::key_order::{key_lt, key_order, KeyOrder};
use crate::value::{entries_view, items_view, EntriesView, Moment, Value, ValueView};

verus! {

/// A document: null, a truth value, a number, a point in time, a text, or
/// an array or object of documents. An object lists its members in the
/// order of their keys, each key once. A floating-point number is held as
/// its IEEE 754 binary64 bit pattern.
#[derive(Debug, PartialEq)]
pub enum Document {
    Null,
    Bool(bool),
    Integer(i64),
    Float(u64),
    Timestamp(Moment),
    Text(String),
    Array(Vec<Document>),
    Object(Vec<(String, Document)>),
}

/// The mathematical value that a [`Document`] stands for.
pub enum DocumentView {
    Null,
    Bool(bool),
    Integer(i64),
    Float(u64),
    Timestamp(Moment),
    Text(Seq<char>),
    Array(Seq<DocumentView>),
    Object(Seq<(Seq<char>, DocumentView)>),
}

/// The members of an object document as the model sees them.
pub type MembersView = Seq<(Seq<char>, DocumentView)>;

/// The outermost shape of a document.
#[derive(Clone, Copy, Debug, PartialEq, Eq, Structural)]
pub enum Shape {
    Null,
    Bool,
    Integer,
    Float,
    Timestamp,
    Text,
    Array,
    Object,
}

/// Why a document is no record.
#[derive(Clone, Copy, Debug, PartialEq, Eq, Structural)]
pub enum ConversionError {
    /// A record is made from an object, and the document is a `found`.
    NotAnObject { found: Shape },
}

/// What the members of an object document stand for.
pub open spec fn members_view(members: Seq<(String, Document)>) -> MembersView
    decreases members,
{
    Seq::new(
        members.len(),
        |i: int|
            if 0 <= i < members.len() {
                (members[i].0@, document_view(members[i].1))
            } else {
                (Seq::empty(), DocumentView::Null)
            },
    )
}

/// What the elements of an array document stand for.
pub open spec fn elements_view(elements: Seq<Document>) -> Seq<DocumentView>
    decreases elements,
{
    Seq::new(
        elements.len(),
        |i: int|
            if 0 <= i < elements.len() {
                document_view(elements[i])
            } else {
                DocumentView::Null
            },
    )
}

/// What a document stands for.
pub open spec fn document_view(d: Document) -> DocumentView
    decreases d,
{
    match d {
        Document::Null => DocumentView::Null,
        Document::Bool(b) => DocumentView::Bool(b),
        Document::Integer(i) => DocumentView::Integer(i),
        Document::Float(bits) => DocumentView::Float(bits),
        Document::Timestamp(t) => DocumentView::Timestamp(t),
        Document::Text(s) => DocumentView::Text(s@),
        Document::Array(elements) => DocumentView::Array(elements_view(elements@)),
        Document::Object(members) => DocumentView::Object(members_view(members@)),
    }
}

impl View for Document {
    type V = DocumentView;

    open spec fn view(&self) -> DocumentView {
        document_view(*self)
    }
}

/// The shape of a document in the model.
pub open spec fn shape_of(d: DocumentView) -> Shape {
    match d {
        DocumentView::Null => Shape::Null,
        DocumentView::Bool(_) => Shape::Bool,
        DocumentView::Integer(_) => Shape::Integer,
        DocumentView::Float(_) => Shape::Float,
        DocumentView::Timestamp(_) => Shape::Timestamp,
        DocumentView::Text(_) => Shape::Text,
        DocumentView::Array(_) => Shape::Array,
        DocumentView::Object(_) => Shape::Object,
    }
}

/// The members keep their keys in strictly ascending order, and so does
/// every object inside them.
pub open spec fn members_valid(members: MembersView) -> bool
    decreases members,
{
    &&& forall|i: int, j: int|
        0 <= i < j < members.len() ==> key_lt(
            (#[trigger] members[i]).0,
            (#[trigger] members[j]).0,
        )
    &&& forall|i: int| 0 <= i < members.len() ==> valid((#[trigger] members[i]).1)
}

/// Every object inside the elements keeps its keys in strictly ascending
/// order.
pub open spec fn elements_valid(elements: Seq<DocumentView>) -> bool
    decreases elements,
{
    forall|i: int| 0 <= i < elements.len() ==> valid(#[trigger] elements[i])
}

/// Every object in the document keeps its keys in strictly ascending
/// order.
pub open spec fn valid(d: DocumentView) -> bool
    decreases d,
{
    match d {
        DocumentView::Object(members) => members_valid(members),
        DocumentView::Array(elements) => elements_valid(elements),
        _ => true,
    }
}

/// The text that bytes are read as where they are not UTF-8: what
/// `String::from_utf8_lossy` makes of them.
pub uninterp spec fn lossy_text(bytes: Seq<u8>) -> Seq<char>;

/// The text that bytes are read as: the text that they encode where they
/// are UTF-8, and else [`lossy_text`].
pub open spec fn text_of(bytes: Seq<u8>) -> Seq<char> {
    if valid_utf8(bytes) {
        decode_utf8(bytes)
    } else {
        lossy_text(bytes)
    }
}

/// Calls `String::from_utf8_lossy`. Bytes that are valid UTF-8 come back as
/// the text they encode; of other bytes the contract says only that the
/// same bytes give the same text.
#[verifier::external_body]
pub(crate) fn read_text(bytes: &[u8]) -> (text: String)
    ensures
        valid_utf8(bytes@) ==> text@ == decode_utf8(bytes@),
        !valid_utf8(bytes@) ==> text@ == lossy_text(bytes@),
{
    String::from_utf8_lossy(bytes).into_owned()
}

/// The document that a value goes out as.
pub open spec fn document_of(v: ValueView) -> DocumentView
    decreases v,
{
    match v {
        ValueView::Bytes(bytes) => DocumentView::Text(text_of(bytes)),
        ValueView::Integer(i) => DocumentView::Integer(i),
        ValueView::Float(bits) => DocumentView::Float(bits),
        ValueView::Boolean(b) => DocumentView::Bool(b),
        ValueView::Timestamp(t) => DocumentView::Timestamp(t),
        ValueView::Object(entries) => DocumentView::Object(members_of(entries)),
        ValueView::Array(items) => DocumentView::Array(elements_of(items)),
        ValueView::Null => DocumentView::Null,
    }
}

/// The members that the entries of an object go out as.
pub open spec fn members_of(entries: EntriesView) -> MembersView
    decreases entries,
{
    Seq::new(
        entries.len(),
        |i: int|
            if 0 <= i < entries.len() {
                (entries[i].0, document_of(entries[i].1))
            } else {
                (Seq::empty(), DocumentView::Null)
            },
    )
}

/// The elements that the items of an array go out as.
pub open spec fn elements_of(items: Seq<ValueView>) -> Seq<DocumentView>
    decreases items,
{
    Seq::new(
        items.len(),
        |i: int|
            if 0 <= i < items.len() {
                document_of(items[i])
            } else {
                DocumentView::Null
            },
    )
}

/// The value that a document comes in as.
pub open spec fn value_of(d: DocumentView) -> ValueView
    decreases d,
{
    match d {
        DocumentView::Null => ValueView::Null,
        DocumentView::Bool(b) => ValueView::Boolean(b),
        DocumentView::Integer(i) => ValueView::Integer(i),
        DocumentView::Float(bits) => ValueView::Float(bits),
        DocumentView::Timestamp(t) => ValueView::Timestamp(t),
        DocumentView::Text(text) => ValueView::Bytes(encode_utf8(text)),
        DocumentView::Array(elements) => ValueView::Array(items_of(elements)),
        DocumentView::Object(members) => ValueView::Object(entries_of(members)),
    }
}

/// The entries that the members of an object come in as.
pub open spec fn entries_of(members: MembersView) -> EntriesView
    decreases members,
{
    Seq::new(
        members.len(),
        |i: int|
            if 0 <= i < members.len() {
                (members[i].0, value_of(members[i].1))
            } else {
                (Seq::empty(), ValueView::Null)
            },
    )
}

/// The items that the elements of an array come in as.
pub open spec fn items_of(elements: Seq<DocumentView>) -> Seq<ValueView>
    decreases elements,
{
    Seq::new(
        elements.len(),
        |i: int|
            if 0 <= i < elements.len() {
                value_of(elements[i])
            } else {
                ValueView::Null
            },
    )
}

impl Document {
    /// Every object in the document keeps its keys in strictly ascending
    /// order.
    pub open spec fn wf(&self) -> bool {
        valid(self@)
    }

    /// Whether every object in the document keeps its keys in strictly
    /// ascending order.
    pub fn is_valid(&self) -> (b: bool)
        ensures
            b == self.wf(),
        decreases self, 1nat,
    {
        match self {
            Document::Object(members) => members_are_valid(members),
            Document::Array(elements) => {
                let ghost model = elements_view(elements@);
                let mut i: usize = 0;
                while i < elements.len()
                    invariant
                        decreases_to!(self => elements),
                        i <= elements@.len(),
                        model == elements_view(elements@),
                        self@ == DocumentView::Array(model),
                        forall|j: int| 0 <= j < i ==> valid(#[trigger] model[j]),
                    decreases elements@.len() - i,
                {
                    if !elements[i].is_valid() {
                        assert(!valid(model[i as int]));
                        return false;
                    }
                    i += 1;
                }
                true
            },
            _ => true,
        }
    }

    /// The outermost shape of the document.
    pub fn shape(&self) -> (s: Shape)
        ensures
            s == shape_of(self@),
    {
        match self {
            Document::Null => Shape::Null,
            Document::Bool(_) => Shape::Bool,
            Document::Integer(_) => Shape::Integer,
            Document::Float(_) => Shape::Float,
            Document::Timestamp(_) => Shape::Timestamp,
            Document::Text(_) => Shape::Text,
            Document::Array(_) => Shape::Array,
            Document::Object(_) => Shape::Object,
        }
    }
}

/// Whether the members keep their keys in strictly ascending order and
/// hold valid documents.
pub fn members_are_valid(members: &Vec<(String, Document)>) -> (b: bool)
    ensures
        b == valid(DocumentView::Object(members_view(members@))),
    decreases members, 0nat,
{
    let ghost model = members_view(members@);
    let ghost keys = Seq::new(model.len(), |i: int| model[i].0);
    let mut i: usize = 0;
    while i < members.len()
        invariant
            i <= members@.len(),
            model == members_view(members@),
            keys == Seq::new(model.len(), |i: int| model[i].0),
            forall|j: int| 0 < j < i ==> key_lt(keys[j - 1], #[trigger] keys[j]),
            forall|j: int| 0 <= j < i ==> valid((#[trigger] model[j]).1),
        decreases members@.len() - i,
    {
        if i > 0 {
            match key_order(members[i - 1].0.as_str(), members[i].0.as_str()) {
                KeyOrder::Before => {},
                _ => {
                    assert(!key_lt(model[i - 1].0, model[i as int].0));
                    return false;
                },
            }
        }
        if !members[i].1.is_valid() {
            assert(!valid(model[i as int].1));
            return false;
        }
        i += 1;
    }
    proof {
        lemma_neighbours_ascend(keys);
        assert forall|a: int, b: int| 0 <= a < b < model.len() implies key_lt(
            (#[trigger] model[a]).0,
            (#[trigger] model[b]).0,
        ) by {
            assert(key_lt(keys[a], keys[b]));
        }
    }
    true
}

/// The entries that the members of an object document come in as.
pub fn entries_from_members(members: &Vec<(String, Document)>) -> (entries: Vec<(String, Value)>)
    ensures
        entries_view(entries@) == entries_of(members_view(members@)),
    decreases members, 0nat,
{
    let mut entries: Vec<(String, Value)> = Vec::new();
    let mut i: usize = 0;
    while i < members.len()
        invariant
            i <= members@.len(),
            entries@.len() == i,
            forall|j: int|
                0 <= j < i ==> (#[trigger] entries@[j]).0@ == members@[j].0@ && entries@[j].1@
                    == value_of(members@[j].1@),
        decreases members@.len() - i,
    {
        let key = members[i].0.clone();
        let value = Value::from_document(&members[i].1);
        entries.push((key, value));
        i += 1;
    }
    assert(entries_view(entries@) =~= entries_of(members_view(members@)));
    entries
}

/// The members that the entries of an object go out as.
pub fn members_from_entries(entries: &Vec<(String, Value)>) -> (members: Vec<(String, Document)>)
    ensures
        members_view(members@) == members_of(entries_view(entries@)),
    decreases entries, 0nat,
{
    let mut members: Vec<(String, Document)> = Vec::new();
    let mut i: usize = 0;
    while i < entries.len()
        invariant
            i <= entries@.len(),
            members@.len() == i,
            forall|j: int|
                0 <= j < i ==> (#[trigger] members@[j]).0@ == entries@[j].0@ && members@[j].1@
                    == document_of(entries@[j].1@),
        decreases entries@.len() - i,
    {
        let key = entries[i].0.clone();
        let member = entries[i].1.to_document();
        members.push((key, member));
        i += 1;
    }
    assert(members_view(members@) =~= members_of(entries_view(entries@)));
    members
}

impl Value {
    /// The value that a document comes in as. A text comes in as the bytes
    /// of its UTF-8 encoding; everything else keeps its shape.
    pub fn from_document(d: &Document) -> (v: Value)
        ensures
            v@ == value_of(d@),
        decreases d, 1nat,
    {
        match d {
            Document::Null => Value::Null,
            Document::Bool(b) => Value::Boolean(*b),
            Document::Integer(i) => Value::Integer(*i),
            Document::Float(bits) => Value::Float(*bits),
            Document::Timestamp(t) => Value::Timestamp(*t),
            Document::Text(text) => Value::Bytes(text.as_str().as_bytes_vec()),
            Document::Array(elements) => {
                let mut items: Vec<Value> = Vec::new();
                let mut i: usize = 0;
                while i < elements.len()
                    invariant
                        decreases_to!(d => elements),
                        i <= elements@.len(),
                        items@.len() == i,
                        forall|j: int|
                            0 <= j < i ==> (#[trigger] items@[j])@ == value_of(elements@[j]@),
                    decreases elements@.len() - i,
                {
                    items.push(Value::from_document(&elements[i]));
                    i += 1;
                }
                assert(items_view(items@) =~= items_of(elements_view(elements@)));
                Value::Array(items)
            },
            Document::Object(members) => Value::Object(entries_from_members(members)),
        }
    }

    /// The document that the value goes out as. Bytes go out as the text
    /// that they are read as; everything else keeps its shape.
    pub fn to_document(&self) -> (d: Document)
        ensures
            d@ == document_of(self@),
        decreases self, 1nat,
    {
        match self {
            Value::Null => Document::Null,
            Value::Boolean(b) => Document::Bool(*b),
            Value::Integer(i) => Document::Integer(*i),
            Value::Float(bits) => Document::Float(*bits),
            Value::Timestamp(t) => Document::Timestamp(*t),
            Value::Bytes(bytes) => Document::Text(read_text(bytes.as_slice())),
            Value::Array(items) => {
                let mut elements: Vec<Document> = Vec::new();
                let mut i: usize = 0;
                while i < items.len()
                    invariant
                        decreases_to!(self => items),
                        i <= items@.len(),
                        elements@.len() == i,
                        forall|j: int|
                            0 <= j < i ==> (#[trigger] elements@[j])@ == document_of(items@[j]@),
                    decreases items@.len() - i,
                {
                    elements.push(items[i].to_document());
                    i += 1;
                }
                assert(elements_view(elements@) =~= elements_of(items_view(items@)));
                Document::Array(elements)
            },
            Value::Object(entries) => Document::Object(members_from_entries(entries)),
        }
    }
}

} // verus!
