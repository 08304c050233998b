//! Slots: places in a record where a value is, or could be put.
use vstd::prelude::*;
use vstd::string::*;
use crate::entries::find_key;
use crate::key_order::key_lt;
use crate::lookup::{segment_bufs_view, SegmentBuf};
use crate::entries::{lemma_position_of_entry, lemma_rank_at_gap};
use crate::laws::lemma_upsert_well_formed;
use crate::model::{graft, last_name, position_of, slot_owner, upsert, EntryError};
use crate::value::{
    entries_view, lemma_entries_view_update, well_formed, EntriesView, Value, ValueView,
};

verus! {

/// A slot that holds a value.
pub struct OccupiedEntry<'a> {
    /// The entries of the object that the slot is in.
    pub entries: &'a mut Vec<(String, Value)>,
    /// Where among them the slot is.
    pub position: usize,
}

/// A slot that holds nothing yet.
pub struct VacantEntry<'a> {
    /// The entries of the object that the slot would be in.
    pub entries: &'a mut Vec<(String, Value)>,
    /// Where among them an entry for the key belongs.
    pub position: usize,
    /// The key of the slot.
    pub key: String,
}

/// A slot of an object, under one key.
pub enum Entry<'a> {
    Occupied(OccupiedEntry<'a>),
    Vacant(VacantEntry<'a>),
}

/// Putting an entry in front of position `i` puts its model in front of
/// position `i` of the model.
pub proof fn lemma_entries_view_insert(entries: Seq<(String, Value)>, i: int, e: (String, Value))
    requires
        0 <= i <= entries.len(),
    ensures
        entries_view(entries.insert(i, e)) == entries_view(entries).insert(i, (e.0@, e.1@)),
{
    assert(entries_view(entries.insert(i, e)) =~= entries_view(entries).insert(i, (e.0@, e.1@)));
}

impl<'a> OccupiedEntry<'a> {
    /// The entries of the object that the slot is in, as they are.
    pub open spec fn before(&self) -> EntriesView {
        entries_view(self.entries@)
    }

    /// Where among [`Self::before`] the slot is.
    pub open spec fn position(&self) -> int {
        self.position as int
    }

    /// The slot is one of the entries of a well-formed object.
    pub open spec fn wf(&self) -> bool {
        &&& self.position < self.entries@.len()
        &&& well_formed(ValueView::Object(entries_view(self.entries@)))
    }

    /// The key of the slot.
    pub open spec fn key(&self) -> Seq<char> {
        self.before()[self.position()].0
    }

    /// Puts `value` in the slot and hands back what was there.
    pub fn insert(self, value: Value) -> (previous: Value)
        requires
            self.wf(),
        ensures
            position_of(self.before(), self.key()) == Some(self.position()),
            previous@ == self.before()[self.position()].1,
            entries_view(final(self.entries)@) == upsert(self.before(), self.key(), value@),
            well_formed(value@) ==> well_formed(
                ValueView::Object(entries_view(final(self.entries)@)),
            ),
    {
        let OccupiedEntry { entries, position } = self;
        let ghost old_entries = entries@;
        proof {
            lemma_entries_view_update(old_entries, position as int);
            lemma_position_of_entry(entries_view(old_entries), position as int);
            lemma_upsert_well_formed(
                entries_view(old_entries),
                entries_view(old_entries)[position as int].0,
                value@,
            );
        }
        let mut value = value;
        std::mem::swap(&mut entries[position].1, &mut value);
        proof {
            assert(entries@ == old_entries.update(
                position as int,
                (old_entries[position as int].0, entries@[position as int].1),
            ));
        }
        value
    }

    /// The value in the slot, for writing.
    pub fn into_mut(self) -> (slot: &'a mut Value)
        requires
            self.wf(),
        ensures
            position_of(self.before(), self.key()) == Some(self.position()),
            (*slot)@ == self.before()[self.position()].1,
            entries_view(final(self.entries)@) == upsert(
                self.before(),
                self.key(),
                (*final(slot))@,
            ),
            well_formed((*final(slot))@) ==> well_formed(
                ValueView::Object(entries_view(final(self.entries)@)),
            ),
    {
        let OccupiedEntry { entries, position } = self;
        let ghost old_entries = entries@;
        let slot = &mut entries[position].1;
        proof {
            lemma_entries_view_update(old_entries, position as int);
            lemma_position_of_entry(entries_view(old_entries), position as int);
            lemma_upsert_well_formed(
                entries_view(old_entries),
                entries_view(old_entries)[position as int].0,
                (*final(slot))@,
            );
            assert(entries_view(
                old_entries.update(
                    position as int,
                    (old_entries[position as int].0, *final(slot)),
                ),
            ) == entries_view(old_entries).update(
                position as int,
                (old_entries[position as int].0@, (*final(slot))@),
            ));
        }
        slot
    }
}

impl<'a> VacantEntry<'a> {
    /// The entries of the object that the slot would be in, as they are.
    pub open spec fn before(&self) -> EntriesView {
        entries_view(self.entries@)
    }

    /// The key of the slot.
    pub open spec fn key(&self) -> Seq<char> {
        self.key@
    }

    /// Where among [`Self::before`] an entry for the key belongs.
    pub open spec fn position(&self) -> int {
        self.position as int
    }

    /// The object is well formed, it has no entry for the key, and the
    /// slot stands where the order of the keys puts the key.
    pub open spec fn wf(&self) -> bool {
        let model = entries_view(self.entries@);
        &&& self.position <= self.entries@.len()
        &&& well_formed(ValueView::Object(model))
        &&& forall|j: int| 0 <= j < self.position ==> key_lt((#[trigger] model[j]).0, self.key@)
        &&& forall|j: int|
            self.position <= j < model.len() ==> key_lt(self.key@, (#[trigger] model[j]).0)
    }

    /// Puts `value` in the slot, which makes it an entry of the object.
    pub fn insert(self, value: Value) -> (slot: &'a mut Value)
        requires
            self.wf(),
        ensures
            position_of(self.before(), self.key()) is None,
            (*slot)@ == value@,
            entries_view(final(self.entries)@) == upsert(
                self.before(),
                self.key(),
                (*final(slot))@,
            ),
            well_formed((*final(slot))@) ==> well_formed(
                ValueView::Object(entries_view(final(self.entries)@)),
            ),
    {
        let VacantEntry { entries, position, key } = self;
        let ghost old_entries = entries@;
        let ghost key_copy = key;
        proof {
            lemma_rank_at_gap(entries_view(old_entries), key@, position as int);
        }
        entries.insert(position, (key, value));
        let ghost grown = entries@;
        let slot = &mut entries[position].1;
        proof {
            lemma_entries_view_update(grown, position as int);
            assert(entries_view(grown.update(position as int, (key_copy, *final(slot))))
                == entries_view(grown).update(position as int, (key_copy@, (*final(slot))@)));
            assert(grown.update(position as int, (key_copy, *final(slot))) =~= old_entries.insert(
                position as int,
                (key_copy, *final(slot)),
            ));
            lemma_entries_view_insert(old_entries, position as int, (key_copy, *final(slot)));
            lemma_upsert_well_formed(entries_view(old_entries), key_copy@, (*final(slot))@);
        }
        slot
    }
}

impl<'a> Entry<'a> {
    /// The entries of the object that the slot belongs to, as they are.
    pub open spec fn before(&self) -> EntriesView {
        match self {
            Entry::Occupied(e) => e.before(),
            Entry::Vacant(e) => e.before(),
        }
    }

    /// The key of the slot.
    pub open spec fn key(&self) -> Seq<char> {
        match self {
            Entry::Occupied(e) => e.key(),
            Entry::Vacant(e) => e.key(),
        }
    }

    /// The slot belongs to a well-formed object, and it is occupied exactly
    /// when the object has an entry for its key.
    pub open spec fn wf(&self) -> bool {
        match self {
            Entry::Occupied(e) => e.wf(),
            Entry::Vacant(e) => e.wf(),
        }
    }

    /// Whether the slot holds a value.
    pub fn is_occupied(&self) -> (b: bool)
        ensures
            b == (self is Occupied),
    {
        match self {
            Entry::Occupied(_) => true,
            Entry::Vacant(_) => false,
        }
    }

    /// Puts `value` in the slot, whether it held something or not, and hands
    /// back what it held.
    pub fn put(self, value: Value) -> (previous: Option<Value>)
        requires
            self.wf(),
        ensures
            match previous {
                Some(v) => {
                    &&& position_of(self.before(), self.key()) matches Some(i)
                    &&& v@ == self.before()[i].1
                },
                None => position_of(self.before(), self.key()) is None,
            },
            match self {
                Entry::Occupied(e) => entries_view(final(e.entries)@),
                Entry::Vacant(e) => entries_view(final(e.entries)@),
            } == upsert(self.before(), self.key(), value@),
            well_formed(value@) ==> well_formed(
                ValueView::Object(
                    match self {
                        Entry::Occupied(e) => entries_view(final(e.entries)@),
                        Entry::Vacant(e) => entries_view(final(e.entries)@),
                    },
                ),
            ),
    {
        match self {
            Entry::Occupied(e) => Some(e.insert(value)),
            Entry::Vacant(e) => {
                let _ = e.insert(value);
                None
            },
        }
    }

    /// The value in the slot, for writing, after `default` has been put
    /// there if the slot held nothing.
    pub fn or_insert(self, default: Value) -> (slot: &'a mut Value)
        requires
            self.wf(),
        ensures
            match position_of(self.before(), self.key()) {
                Some(i) => (*slot)@ == self.before()[i].1,
                None => (*slot)@ == default@,
            },
            match self {
                Entry::Occupied(e) => entries_view(final(e.entries)@),
                Entry::Vacant(e) => entries_view(final(e.entries)@),
            } == upsert(self.before(), self.key(), (*final(slot))@),
    {
        match self {
            Entry::Occupied(e) => e.into_mut(),
            Entry::Vacant(e) => e.insert(default),
        }
    }

    /// The value in the slot, for writing, after what `default` makes has
    /// been put there if the slot held nothing. `default` is called only
    /// then.
    pub fn or_insert_with<F: FnOnce() -> Value>(self, default: F) -> (slot: &'a mut Value)
        requires
            self.wf(),
            default.requires(()),
        ensures
            match position_of(self.before(), self.key()) {
                Some(i) => (*slot)@ == self.before()[i].1,
                None => exists|made: Value| default.ensures((), made) && (*slot)@ == made@,
            },
            match self {
                Entry::Occupied(e) => entries_view(final(e.entries)@),
                Entry::Vacant(e) => entries_view(final(e.entries)@),
            } == upsert(self.before(), self.key(), (*final(slot))@),
    {
        match self {
            Entry::Occupied(e) => e.into_mut(),
            Entry::Vacant(e) => {
                let made = default();
                e.insert(made)
            },
        }
    }
}

/// Writes `value` under `key` among `entries` and hands back the value that
/// the key had.
pub fn put_entry(entries: &mut Vec<(String, Value)>, key: String, value: Value) -> (previous:
    Option<Value>)
    requires
        well_formed(ValueView::Object(entries_view(old(entries)@))),
    ensures
        entries_view(final(entries)@) == upsert(entries_view(old(entries)@), key@, value@),
        match previous {
            Some(v) => {
                &&& position_of(entries_view(old(entries)@), key@) matches Some(i)
                &&& v@ == entries_view(old(entries)@)[i].1
            },
            None => position_of(entries_view(old(entries)@), key@) is None,
        },
        well_formed(value@) ==> well_formed(ValueView::Object(entries_view(final(entries)@))),
{
    let ghost model = entries_view(entries@);
    match find_key(entries, key.as_str()) {
        Ok(i) => {
            proof {
                lemma_position_of_entry(model, i as int);
            }
            let slot = OccupiedEntry { entries, position: i };
            Some(slot.insert(value))
        },
        Err(i) => {
            let slot = VacantEntry { entries, position: i, key };
            let _ = slot.insert(value);
            None
        },
    }
}

/// Resolves the slot that the segments from `from` on name, starting in the
/// object with the given entries.
///
/// All segments but the last must lead through objects that exist; the
/// last names the slot in the object reached, which may hold nothing yet.
/// Nothing is created on the way.
pub fn locate<'a>(entries: &'a mut Vec<(String, Value)>, segments: &[SegmentBuf], from: usize) -> (r:
    Result<Entry<'a>, EntryError>)
    requires
        from < segments@.len(),
        well_formed(ValueView::Object(entries_view(old(entries)@))),
    ensures
        match r {
            Ok(entry) => {
                &&& entry.wf()
                &&& entry.key() == last_name(segment_bufs_view(segments@))
                &&& entry is Occupied <==> position_of(entry.before(), entry.key()) is Some
                &&& slot_owner(
                    entries_view(old(entries)@),
                    segment_bufs_view(segments@).skip(from as int),
                    from as int,
                ) == Ok::<EntriesView, EntryError>(entry.before())
                &&& entries_view(final(entries)@) == graft(
                    entries_view(old(entries)@),
                    segment_bufs_view(segments@).skip(from as int),
                    match entry {
                        Entry::Occupied(e) => entries_view(final(e.entries)@),
                        Entry::Vacant(e) => entries_view(final(e.entries)@),
                    },
                )
            },
            Err(e) => {
                &&& slot_owner(
                    entries_view(old(entries)@),
                    segment_bufs_view(segments@).skip(from as int),
                    from as int,
                ) == Err::<EntriesView, EntryError>(e)
                &&& entries_view(final(entries)@) == entries_view(old(entries)@)
            },
        },
    decreases segments@.len() - from,
{
    let ghost whole = segment_bufs_view(segments@);
    let ghost path = whole.skip(from as int);
    let ghost model = entries_view(entries@);
    proof {
        assert(path[0] == segments@[from as int]@);
        assert(path.len() == segments@.len() - from);
        assert(path.last() == whole.last());
    }
    match &segments[from] {
        SegmentBuf::Index(_) => Err(EntryError::ArrayIndex { at: from }),
        SegmentBuf::Field(name) => {
            let found = find_key(entries, name.as_str());
            if from + 1 == segments.len() {
                match found {
                    Ok(i) => {
                        proof {
                            lemma_position_of_entry(model, i as int);
                        }
                        Ok(Entry::Occupied(OccupiedEntry { entries, position: i }))
                    },
                    Err(i) => Ok(
                        Entry::Vacant(VacantEntry { entries, position: i, key: name.clone() }),
                    ),
                }
            } else {
                proof {
                    assert(path[1] == segments@[from + 1]@);
                    assert(path.skip(1) =~= whole.skip(from + 1));
                }
                match &segments[from + 1] {
                    SegmentBuf::Index(_) => Err(EntryError::ArrayIndex { at: from + 1 }),
                    SegmentBuf::Field(_) => match found {
                        Err(_) => Err(EntryError::MissingParent { at: from + 1 }),
                        Ok(i) => {
                            let ghost before = entries@;
                            let child = &mut entries[i].1;
                            let ghost child_after = *final(child);
                            proof {
                                lemma_entries_view_update(before, i as int);
                                assert(entries_view(
                                    before.update(i as int, (before[i as int].0, child_after)),
                                ) == model.update(i as int, (before[i as int].0@, child_after@)));
                                assert(model[i as int].1 == child@);
                            }
                            match child {
                                Value::Object(inner) => {
                                    let ghost inner_after = *final(inner);
                                    let r = locate(inner, segments, from + 1);
                                    proof {
                                        assert(child_after == Value::Object(inner_after));
                                        assert(r is Err ==> model.update(
                                            i as int,
                                            (before[i as int].0@, child_after@),
                                        ) =~= model);
                                    }
                                    r
                                },
                                other => {
                                    let found_kind = other.kind();
                                    proof {
                                        assert(model.update(
                                            i as int,
                                            (before[i as int].0@, child_after@),
                                        ) =~= model);
                                    }
                                    Err(EntryError::NotAnObject { at: from + 1, found: found_kind })
                                },
                            }
                        },
                    },
                }
            }
        },
    }
}

} // verus!
