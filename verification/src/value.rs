//! The value tree: what a node of a record can hold.
use vstd::prelude::*;
use vstd::string::*;
use vstd::utf8::*;
use crate::document::{read_text, text_of};
use crate::entries::lemma_neighbours_ascend;
use crate::path_text::{digits_of, push_digits};
use crate::key_order::{key_lt, key_order, KeyOrder};

verus! {

/// A point in time: whole seconds since the Unix epoch and the nanoseconds
/// within that second.
#[derive(Clone, Copy, Debug, PartialEq, Eq, Structural)]
pub struct Moment {
    pub seconds: i64,
    pub nanos: u32,
}

/// One node of a record's tree.
///
/// An object keeps its entries in key order, each key once. An array keeps
/// its items by position. Everything else is a leaf. A floating-point number
/// is held as its IEEE 754 binary64 bit pattern.
#[derive(Debug)]
pub enum Value {
    Bytes(Vec<u8>),
    Integer(i64),
    Float(u64),
    Boolean(bool),
    Timestamp(Moment),
    Object(Vec<(String, Value)>),
    Array(Vec<Value>),
    Null,
}

/// The mathematical value that a [`Value`] stands for.
pub enum ValueView {
    Bytes(Seq<u8>),
    Integer(i64),
    Float(u64),
    Boolean(bool),
    Timestamp(Moment),
    Object(Seq<(Seq<char>, ValueView)>),
    Array(Seq<ValueView>),
    Null,
}

/// The entries of an object as the model sees them.
pub type EntriesView = Seq<(Seq<char>, ValueView)>;

/// Which variant a value is.
#[derive(Clone, Copy, Debug, PartialEq, Eq, Structural)]
pub enum Kind {
    Bytes,
    Integer,
    Float,
    Boolean,
    Timestamp,
    Object,
    Array,
    Null,
}

/// What the entries of an object stand for: each key as text, each value
/// as what it stands for.
pub open spec fn entries_view(entries: Seq<(String, Value)>) -> EntriesView
    decreases entries,
{
    Seq::new(
        entries.len(),
        |i: int|
            if 0 <= i < entries.len() {
                (entries[i].0@, value_view(entries[i].1))
            } else {
                (Seq::empty(), ValueView::Null)
            },
    )
}

/// What the items of an array stand for.
pub open spec fn items_view(items: Seq<Value>) -> Seq<ValueView>
    decreases items,
{
    Seq::new(
        items.len(),
        |i: int|
            if 0 <= i < items.len() {
                value_view(items[i])
            } else {
                ValueView::Null
            },
    )
}

/// What a value stands for.
pub open spec fn value_view(v: Value) -> ValueView
    decreases v,
{
    match v {
        Value::Bytes(b) => ValueView::Bytes(b@),
        Value::Integer(i) => ValueView::Integer(i),
        Value::Float(bits) => ValueView::Float(bits),
        Value::Boolean(b) => ValueView::Boolean(b),
        Value::Timestamp(t) => ValueView::Timestamp(t),
        Value::Object(entries) => ValueView::Object(entries_view(entries@)),
        Value::Array(items) => ValueView::Array(items_view(items@)),
        Value::Null => ValueView::Null,
    }
}

impl View for Value {
    type V = ValueView;

    open spec fn view(&self) -> ValueView {
        value_view(*self)
    }
}

/// The keys of `entries` stand in strictly ascending order.
pub open spec fn keys_ascend(entries: EntriesView) -> bool {
    forall|i: int, j: int|
        0 <= i < j < entries.len() ==> key_lt((#[trigger] entries[i]).0, (#[trigger] entries[j]).0)
}

/// The entries keep their keys in strictly ascending order, and so does
/// every object inside their values.
pub open spec fn entries_well_formed(entries: EntriesView) -> bool
    decreases entries,
{
    &&& keys_ascend(entries)
    &&& forall|i: int| 0 <= i < entries.len() ==> well_formed((#[trigger] entries[i]).1)
}

/// Every object inside the items keeps its keys in strictly ascending order.
pub open spec fn items_well_formed(items: Seq<ValueView>) -> bool
    decreases items,
{
    forall|i: int| 0 <= i < items.len() ==> well_formed(#[trigger] items[i])
}

/// Every object below `v`, and `v` itself if it is one, keeps its keys in
/// strictly ascending order.
pub open spec fn well_formed(v: ValueView) -> bool
    decreases v,
{
    match v {
        ValueView::Object(entries) => entries_well_formed(entries),
        ValueView::Array(items) => items_well_formed(items),
        _ => true,
    }
}

/// The variant of a value in the model.
pub open spec fn kind_of(v: ValueView) -> Kind {
    match v {
        ValueView::Bytes(_) => Kind::Bytes,
        ValueView::Integer(_) => Kind::Integer,
        ValueView::Float(_) => Kind::Float,
        ValueView::Boolean(_) => Kind::Boolean,
        ValueView::Timestamp(_) => Kind::Timestamp,
        ValueView::Object(_) => Kind::Object,
        ValueView::Array(_) => Kind::Array,
        ValueView::Null => Kind::Null,
    }
}

/// A value as text, where it is bytes, a whole number, a truth value or
/// null.
pub open spec fn lossy_string(v: ValueView) -> Option<Seq<char>> {
    match v {
        ValueView::Bytes(bytes) => Some(text_of(bytes)),
        ValueView::Integer(number) => Some(
            if number < 0 {
                seq!['-'] + digits_of((-number) as nat)
            } else {
                digits_of(number as nat)
            },
        ),
        ValueView::Boolean(truth) => Some(
            if truth {
                "true"@
            } else {
                "false"@
            },
        ),
        ValueView::Null => Some("<null>"@),
        _ => None,
    }
}

/// An object or an array that holds nothing.
pub open spec fn is_empty_container(v: ValueView) -> bool {
    match v {
        ValueView::Object(entries) => entries.len() == 0,
        ValueView::Array(items) => items.len() == 0,
        _ => false,
    }
}

/// Replacing one entry of an object replaces the same entry of its model.
pub proof fn lemma_entries_view_update(entries: Seq<(String, Value)>, i: int)
    requires
        0 <= i < entries.len(),
    ensures
        forall|e: (String, Value)|
            (#[trigger] entries_view(entries.update(i, e))) == entries_view(entries).update(
                i,
                (e.0@, e.1@),
            ),
{
    assert forall|e: (String, Value)|
        (#[trigger] entries_view(entries.update(i, e))) == entries_view(entries).update(
            i,
            (e.0@, e.1@),
        ) by {
        assert(entries_view(entries.update(i, e)) =~= entries_view(entries).update(
            i,
            (e.0@, e.1@),
        ));
    }
}

/// Replacing one item of an array replaces the same item of its model.
pub proof fn lemma_items_view_update(items: Seq<Value>, i: int)
    requires
        0 <= i < items.len(),
    ensures
        forall|item: Value|
            (#[trigger] items_view(items.update(i, item))) == items_view(items).update(i, item@),
{
    assert forall|item: Value|
        (#[trigger] items_view(items.update(i, item))) == items_view(items).update(i, item@) by {
        assert(items_view(items.update(i, item)) =~= items_view(items).update(i, item@));
    }
}

/// Taking one entry out of an object takes the same entry out of its model.
pub proof fn lemma_entries_view_remove(entries: Seq<(String, Value)>, i: int)
    requires
        0 <= i < entries.len(),
    ensures
        entries_view(entries.remove(i)) == entries_view(entries).remove(i),
{
    assert(entries_view(entries.remove(i)) =~= entries_view(entries).remove(i));
}

/// Taking one item out of an array takes the same item out of its model.
pub proof fn lemma_items_view_remove(items: Seq<Value>, i: int)
    requires
        0 <= i < items.len(),
    ensures
        items_view(items.remove(i)) == items_view(items).remove(i),
{
    assert(items_view(items.remove(i)) =~= items_view(items).remove(i));
}

/// A well-formed object stays well formed when one of its entries goes or
/// is given another well-formed value.
pub proof fn lemma_entries_change_well_formed(entries: EntriesView, i: int, child: ValueView)
    requires
        well_formed(ValueView::Object(entries)),
        0 <= i < entries.len(),
    ensures
        well_formed(ValueView::Object(entries.remove(i))),
        well_formed(child) ==> well_formed(
            ValueView::Object(entries.update(i, (entries[i].0, child))),
        ),
{
    let less = entries.remove(i);
    assert forall|a: int, b: int| 0 <= a < b < less.len() implies key_lt(
        (#[trigger] less[a]).0,
        (#[trigger] less[b]).0,
    ) by {
        let a0 = if a < i { a } else { a + 1 };
        let b0 = if b < i { b } else { b + 1 };
        assert(less[a] == entries[a0]);
        assert(less[b] == entries[b0]);
    }
    assert forall|a: int| 0 <= a < less.len() implies well_formed((#[trigger] less[a]).1) by {
        let a0 = if a < i { a } else { a + 1 };
        assert(less[a] == entries[a0]);
    }
    let other = entries.update(i, (entries[i].0, child));
    assert forall|a: int, b: int| 0 <= a < b < other.len() implies key_lt(
        (#[trigger] other[a]).0,
        (#[trigger] other[b]).0,
    ) by {
        assert(other[a].0 == entries[a].0);
        assert(other[b].0 == entries[b].0);
    }
    if well_formed(child) {
        assert forall|a: int| 0 <= a < other.len() implies well_formed((#[trigger] other[a]).1) by {
            if a != i {
                assert(other[a] == entries[a]);
            }
        }
    }
}

/// A well-formed array stays well formed when one of its items goes or is
/// replaced by another well-formed value.
pub proof fn lemma_items_change_well_formed(items: Seq<ValueView>, i: int, child: ValueView)
    requires
        well_formed(ValueView::Array(items)),
        0 <= i < items.len(),
    ensures
        well_formed(ValueView::Array(items.remove(i))),
        well_formed(child) ==> well_formed(ValueView::Array(items.update(i, child))),
{
    let less = items.remove(i);
    assert forall|a: int| 0 <= a < less.len() implies well_formed(#[trigger] less[a]) by {
        let a0 = if a < i { a } else { a + 1 };
        assert(well_formed(items[a0]));
        assert(less[a] == items[a0]);
    }
    let other = items.update(i, child);
    if well_formed(child) {
        assert forall|a: int| 0 <= a < other.len() implies well_formed(#[trigger] other[a]) by {
            if a != i {
                assert(well_formed(items[a]));
                assert(other[a] == items[a]);
            }
        }
    }
}

/// A copy of the entries of an object.
pub fn clone_entries(entries: &Vec<(String, Value)>) -> (copy: Vec<(String, Value)>)
    ensures
        entries_view(copy@) == entries_view(entries@),
    decreases entries, 0nat,
{
    let mut copy: Vec<(String, Value)> = Vec::new();
    let mut i: usize = 0;
    while i < entries.len()
        invariant
            i <= entries.len(),
            copy@.len() == i,
            forall|j: int|
                0 <= j < i ==> copy@[j].0@ == entries@[j].0@ && copy@[j].1@ == entries@[j].1@,
        decreases entries.len() - i,
    {
        let key = entries[i].0.clone();
        let child = entries[i].1.clone();
        copy.push((key, child));
        i += 1;
    }
    assert(entries_view(copy@) =~= entries_view(entries@));
    copy
}

/// Whether the entries keep their keys in strictly ascending order and
/// hold well-formed values.
pub fn entries_are_well_formed(entries: &Vec<(String, Value)>) -> (b: bool)
    ensures
        b == well_formed(ValueView::Object(entries_view(entries@))),
    decreases entries, 0nat,
{
    let ghost model = entries_view(entries@);
    let ghost keys = Seq::new(model.len(), |i: int| model[i].0);
    let mut i: usize = 0;
    while i < entries.len()
        invariant
            i <= entries@.len(),
            model == entries_view(entries@),
            keys == Seq::new(model.len(), |i: int| model[i].0),
            forall|j: int| 0 < j < i ==> key_lt(keys[j - 1], #[trigger] keys[j]),
            forall|j: int| 0 <= j < i ==> well_formed((#[trigger] model[j]).1),
        decreases entries@.len() - i,
    {
        if i > 0 {
            match key_order(entries[i - 1].0.as_str(), entries[i].0.as_str()) {
                KeyOrder::Before => {},
                _ => {
                    assert(!key_lt(model[i - 1].0, model[i as int].0));
                    return false;
                },
            }
        }
        if !entries[i].1.is_well_formed() {
            assert(!well_formed(model[i as int].1));
            return false;
        }
        i += 1;
    }
    proof {
        lemma_neighbours_ascend(keys);
        assert forall|a: int, b: int| 0 <= a < b < model.len() implies key_lt(
            (#[trigger] model[a]).0,
            (#[trigger] model[b]).0,
        ) by {
            assert(key_lt(keys[a], keys[b]));
        }
    }
    true
}

impl Clone for Value {
    /// A copy of the whole tree.
    fn clone(&self) -> (res: Self)
        ensures
            res@ == self@,
        decreases self, 1nat,
    {
        match self {
            Value::Bytes(b) => {
                let copy = b.clone();
                assert(copy@ =~= b@);
                Value::Bytes(copy)
            },
            Value::Integer(i) => Value::Integer(*i),
            Value::Float(bits) => Value::Float(*bits),
            Value::Boolean(b) => Value::Boolean(*b),
            Value::Timestamp(t) => Value::Timestamp(*t),
            Value::Object(entries) => Value::Object(clone_entries(entries)),
            Value::Array(items) => {
                let mut copy: Vec<Value> = Vec::new();
                let mut i: usize = 0;
                while i < items.len()
                    invariant
                        decreases_to!(self => items),
                        i <= items.len(),
                        copy@.len() == i,
                        forall|j: int| 0 <= j < i ==> copy@[j]@ == items@[j]@,
                    decreases items.len() - i,
                {
                    let child = items[i].clone();
                    copy.push(child);
                    i += 1;
                }
                assert(items_view(copy@) =~= items_view(items@));
                Value::Array(copy)
            },
            Value::Null => Value::Null,
        }
    }
}

impl Value {
    /// Every object in this tree keeps its keys in strictly ascending order.
    pub open spec fn wf(&self) -> bool {
        well_formed(self@)
    }

    /// Whether every object in this tree keeps its keys in strictly
    /// ascending order.
    pub fn is_well_formed(&self) -> (b: bool)
        ensures
            b == self.wf(),
        decreases self, 1nat,
    {
        match self {
            Value::Object(entries) => entries_are_well_formed(entries),
            Value::Array(items) => {
                let ghost model = items_view(items@);
                let mut i: usize = 0;
                while i < items.len()
                    invariant
                        decreases_to!(self => items),
                        i <= items@.len(),
                        model == items_view(items@),
                        self@ == ValueView::Array(model),
                        forall|j: int| 0 <= j < i ==> well_formed(#[trigger] model[j]),
                    decreases items@.len() - i,
                {
                    if !items[i].is_well_formed() {
                        assert(!well_formed(model[i as int]));
                        return false;
                    }
                    i += 1;
                }
                true
            },
            _ => true,
        }
    }

    /// The value as text, where it is bytes, a whole number, a truth value
    /// or null. Bytes are read as [`text_of`] reads them. Other kinds of
    /// value are written out elsewhere.
    pub fn to_string_lossy(&self) -> (r: Option<String>)
        ensures
            match r {
                Some(text) => lossy_string(self@) == Some(text@),
                None => lossy_string(self@) is None,
            },
    {
        match self {
            Value::Bytes(bytes) => Some(read_text(bytes.as_slice())),
            Value::Integer(number) => {
                let mut text = String::new();
                proof {
                    reveal_strlit("-");
                }
                if *number < 0 {
                    text.append("-");
                    let size: u64 = if *number == i64::MIN {
                        9223372036854775808
                    } else {
                        (-*number) as u64
                    };
                    push_digits(&mut text, size);
                    assert(text@ =~= seq!['-'] + digits_of((-*number) as nat));
                } else {
                    push_digits(&mut text, *number as u64);
                    assert(text@ =~= digits_of(*number as nat));
                }
                Some(text)
            },
            Value::Boolean(truth) => if *truth {
                Some(String::from_str("true"))
            } else {
                Some(String::from_str("false"))
            },
            Value::Null => Some(String::from_str("<null>")),
            _ => None,
        }
    }

    /// The text `s` as a byte string.
    pub fn text(s: &str) -> (v: Value)
        ensures
            v@ == ValueView::Bytes(encode_utf8(s@)),
            v.wf(),
    {
        Value::Bytes(s.as_bytes_vec())
    }

    /// Which variant this value is.
    pub fn kind(&self) -> (k: Kind)
        ensures
            k == kind_of(self@),
    {
        match self {
            Value::Bytes(_) => Kind::Bytes,
            Value::Integer(_) => Kind::Integer,
            Value::Float(_) => Kind::Float,
            Value::Boolean(_) => Kind::Boolean,
            Value::Timestamp(_) => Kind::Timestamp,
            Value::Object(_) => Kind::Object,
            Value::Array(_) => Kind::Array,
            Value::Null => Kind::Null,
        }
    }

    /// Whether this value is an object or an array with nothing in it.
    pub fn is_empty_container(&self) -> (b: bool)
        ensures
            b == is_empty_container(self@),
    {
        match self {
            Value::Object(entries) => entries.len() == 0,
            Value::Array(items) => items.len() == 0,
            _ => false,
        }
    }
}

} // verus!
