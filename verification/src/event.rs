//! The record: a root object whose nodes are read and written by path.
use vstd::prelude::*;
use vstd::string::*;
use crate::document::{
    entries_from_members, entries_of, members_from_entries, members_of, shape_of, ConversionError,
    Document, DocumentView,
};
use crate::entries::{find_key, seek_key};
use crate::equality::same_entries;
use crate::entry::{locate, put_entry, Entry};
use crate::laws::{
    lemma_fields_resolve, lemma_graft_well_formed, lemma_resolve_via_owner,
    lemma_substitute_well_formed, lemma_valid_comes_in_well_formed,
    lemma_well_formed_goes_out_valid,
};
use crate::lookup::{segments_view, Lookup, LookupBuf, PathView, Segment};
use crate::model::{
    descend, extended, fields_below, graft, insertion, last_name, paths_of, position_of, removal,
    resolve, slot_owner, step, substitute, upsert, with_child, written, EntryError,
};
use crate::walk::{fields_view, FieldWalker};
use crate::value::{
    clone_entries, entries_are_well_formed, entries_view, is_empty_container, items_view,
    lemma_entries_change_well_formed, lemma_entries_view_remove, lemma_entries_view_update,
    lemma_items_change_well_formed, lemma_items_view_remove, lemma_items_view_update, well_formed,
    EntriesView, Value, ValueView,
};

verus! {

/// A record: the fields at its root, by name, and below them whatever tree
/// of values each field holds.
#[derive(Debug)]
pub struct LogEvent {
    fields: Vec<(String, Value)>,
}

/// What a run of writes stands for: each path with the value to write
/// there.
pub open spec fn writes_view(writes: Seq<(LookupBuf, Value)>) -> Seq<(PathView, ValueView)> {
    Seq::new(writes.len(), |i: int| (writes[i].0@, writes[i].1@))
}

/// The paths that a run of lookups spells.
pub open spec fn lookups_view(lookups: Seq<Lookup<'_>>) -> Seq<PathView> {
    Seq::new(lookups.len(), |i: int| lookups[i]@)
}

impl View for LogEvent {
    type V = EntriesView;

    closed spec fn view(&self) -> EntriesView {
        entries_view(self.fields@)
    }
}

/// The place below `v` that the segments from `from` on lead to, for
/// writing.
fn value_at_mut<'a>(v: &'a mut Value, segments: &[Segment<'_>], from: usize) -> (r: Option<
    &'a mut Value,
>)
    requires
        from <= segments@.len(),
    ensures
        well_formed(old(v)@) ==> match r {
            Some(slot) => {
                &&& descend(old(v)@, segments_view(segments@).skip(from as int)) == Some((*slot)@)
                &&& final(v)@ == substitute(
                    old(v)@,
                    segments_view(segments@).skip(from as int),
                    (*final(slot))@,
                )
            },
            None => {
                &&& descend(old(v)@, segments_view(segments@).skip(from as int)) is None
                &&& final(v)@ == old(v)@
            },
        },
    decreases segments@.len() - from,
{
    let ghost path = segments_view(segments@).skip(from as int);
    if from == segments.len() {
        return Some(v);
    }
    proof {
        assert(path[0] == segments@[from as int]@);
        assert(path.skip(1) =~= segments_view(segments@).skip(from + 1));
    }
    match v {
        Value::Object(entries) => match segments[from] {
            Segment::Field(name) => match seek_key(entries, name) {
                Ok(k) => {
                    let ghost before = entries@;
                    let child = &mut entries[k].1;
                    proof {
                        lemma_entries_view_update(before, k as int);
                        assert(entries_view(before.update(k as int, (before[k as int].0, *final(child))))
                            == entries_view(before).update(
                            k as int,
                            (before[k as int].0@, (*final(child))@),
                        ));
                    }
                    let ghost child_before = child@;
                    let ghost child_after = (*final(child))@;
                    let r = value_at_mut(child, segments, from + 1);
                    proof {
                        let model = entries_view(before);
                        assert(old(v)@ == ValueView::Object(model));
                        assert(model[k as int].1 == child_before);
                        assert(well_formed(old(v)@) ==> step(old(v)@, path[0]) == Some(
                            child_before,
                        ));
                        assert(well_formed(old(v)@) ==> well_formed(child_before));
                        if r is None && well_formed(old(v)@) {
                            assert(model.update(k as int, (before[k as int].0@, child_after))
                                =~= model);
                        }
                        if r is Some {
                            let new = (*final(r->Some_0))@;
                            assert(well_formed(old(v)@) ==> child_after == substitute(
                                child_before,
                                path.skip(1),
                                new,
                            ));
                            assert(well_formed(old(v)@) ==> substitute(old(v)@, path, new)
                                == with_child(old(v)@, path[0], child_after));
                        }
                    }
                    r
                },
                Err(_) => None,
            },
            Segment::Index(_) => None,
        },
        Value::Array(items) => match segments[from] {
            Segment::Index(position) => if position < items.len() {
                let ghost before = items@;
                let child = &mut items[position];
                proof {
                    lemma_items_view_update(before, position as int);
                    assert(items_view(before.update(position as int, *final(child)))
                        == items_view(before).update(position as int, (*final(child))@));
                }
                let ghost child_before = child@;
                let ghost child_after = (*final(child))@;
                let r = value_at_mut(child, segments, from + 1);
                proof {
                    let model = items_view(before);
                    assert(old(v)@ == ValueView::Array(model));
                    assert(model[position as int] == child_before);
                    assert(step(old(v)@, path[0]) == Some(child_before));
                    assert(well_formed(old(v)@) ==> well_formed(child_before));
                    if r is None && well_formed(old(v)@) {
                        assert(model.update(position as int, child_after) =~= model);
                    }
                    if r is Some {
                        let new = (*final(r->Some_0))@;
                        assert(well_formed(old(v)@) ==> child_after == substitute(
                            child_before,
                            path.skip(1),
                            new,
                        ));
                        assert(well_formed(old(v)@) ==> substitute(old(v)@, path, new)
                            == with_child(old(v)@, path[0], child_after));
                    }
                }
                r
            } else {
                None
            },
            Segment::Field(_) => None,
        },
        _ => None,
    }
}

/// Takes the value that the segments from `from` on lead to out of the
/// object with the given entries.
fn remove_from_entries(
    entries: &mut Vec<(String, Value)>,
    segments: &[Segment<'_>],
    from: usize,
    prune: bool,
) -> (r: Option<Value>)
    requires
        from < segments@.len(),
        well_formed(ValueView::Object(entries_view(old(entries)@))),
    ensures
        match r {
            Some(taken) => descend(
                ValueView::Object(entries_view(old(entries)@)),
                segments_view(segments@).skip(from as int),
            ) == Some(taken@),
            None => descend(
                ValueView::Object(entries_view(old(entries)@)),
                segments_view(segments@).skip(from as int),
            ) is None,
        },
        ValueView::Object(entries_view(final(entries)@)) == removal(
            ValueView::Object(entries_view(old(entries)@)),
            segments_view(segments@).skip(from as int),
            prune,
        ),
        well_formed(ValueView::Object(entries_view(final(entries)@))),
    decreases segments@.len() - from, 0int,
{
    let ghost path = segments_view(segments@).skip(from as int);
    let ghost before = entries@;
    let ghost model = entries_view(before);
    proof {
        assert(path[0] == segments@[from as int]@);
        assert(path.skip(1) =~= segments_view(segments@).skip(from + 1));
    }
    match segments[from] {
        Segment::Index(_) => None,
        Segment::Field(name) => match find_key(entries, name) {
            Err(_) => None,
            Ok(k) => {
                proof {
                    lemma_entries_view_remove(before, k as int);
                    lemma_entries_view_update(before, k as int);
                    assert(well_formed(model[k as int].1));
                }
                if from + 1 == segments.len() {
                    let taken = entries.remove(k);
                    proof {
                        assert(path.skip(1).len() == 0);
                        assert(descend(model[k as int].1, path.skip(1)) == Some(model[k as int].1));
                        lemma_entries_change_well_formed(model, k as int, ValueView::Null);
                    }
                    Some(taken.1)
                } else {
                    let taken = remove_from_value(&mut entries[k].1, segments, from + 1, prune);
                    let ghost below = entries@[k as int].1@;
                    proof {
                        assert(entries@ == before.update(k as int, entries@[k as int]));
                        assert(entries@[k as int].0 == before[k as int].0);
                        lemma_entries_change_well_formed(model, k as int, below);
                        assert(taken is None ==> model.update(k as int, (name@, below)) =~= model);
                    }
                    if prune && taken.is_some() && entries[k].1.is_empty_container() {
                        let ghost changed = entries@;
                        let _ = entries.remove(k);
                        proof {
                            assert(changed.remove(k as int) =~= before.remove(k as int));
                        }
                    }
                    taken
                }
            },
        },
    }
}

/// Takes the value that the segments from `from` on lead to out of the tree
/// below `v`.
fn remove_from_value(v: &mut Value, segments: &[Segment<'_>], from: usize, prune: bool) -> (r:
    Option<Value>)
    requires
        from < segments@.len(),
        well_formed(old(v)@),
    ensures
        match r {
            Some(taken) => descend(old(v)@, segments_view(segments@).skip(from as int)) == Some(
                taken@,
            ),
            None => descend(old(v)@, segments_view(segments@).skip(from as int)) is None,
        },
        final(v)@ == removal(old(v)@, segments_view(segments@).skip(from as int), prune),
        well_formed(final(v)@),
    decreases segments@.len() - from, 1int,
{
    let ghost path = segments_view(segments@).skip(from as int);
    proof {
        assert(path[0] == segments@[from as int]@);
        assert(path.skip(1) =~= segments_view(segments@).skip(from + 1));
    }
    let taken = match v {
        Value::Object(entries) => remove_from_entries(entries, segments, from, prune),
        Value::Array(items) => match segments[from] {
            Segment::Field(_) => None,
            Segment::Index(position) => if position < items.len() {
                let ghost before = items@;
                let ghost model = items_view(before);
                proof {
                    lemma_items_view_remove(before, position as int);
                    lemma_items_view_update(before, position as int);
                    assert(well_formed(model[position as int]));
                }
                if from + 1 == segments.len() {
                    let taken = items.remove(position);
                    proof {
                        assert(path.skip(1).len() == 0);
                        assert(descend(model[position as int], path.skip(1)) == Some(
                            model[position as int],
                        ));
                        lemma_items_change_well_formed(model, position as int, ValueView::Null);
                        assert(old(v)@ == ValueView::Array(model));
                        assert(step(old(v)@, path[0]) == Some(model[position as int]));
                        assert(ValueView::Array(items_view(items@)) == removal(
                            old(v)@,
                            path,
                            prune,
                        ));
                    }
                    Some(taken)
                } else {
                    let taken = remove_from_value(&mut items[position], segments, from + 1, prune);
                    let ghost below = items@[position as int]@;
                    proof {
                        assert(items@ == before.update(position as int, items@[position as int]));
                        lemma_items_change_well_formed(model, position as int, below);
                        assert(taken is None ==> model.update(position as int, below) =~= model);
                    }
                    if prune && taken.is_some() && items[position].is_empty_container() {
                        let ghost changed = items@;
                        let _ = items.remove(position);
                        proof {
                            assert(changed.remove(position as int) =~= before.remove(
                                position as int,
                            ));
                        }
                    }
                    proof {
                        assert(old(v)@ == ValueView::Array(model));
                        assert(step(old(v)@, path[0]) == Some(model[position as int]));
                        assert(ValueView::Array(items_view(items@)) == removal(
                            old(v)@,
                            path,
                            prune,
                        ));
                    }
                    taken
                }
            } else {
                None
            },
        },
        _ => None,
    };
    proof {
        assert(v@ == removal(old(v)@, path, prune));
        assert(well_formed(v@));
    }
    taken
}

impl PartialEq for LogEvent {
    /// Whether two records hold the same fields with the same values.
    fn eq(&self, other: &LogEvent) -> (same: bool) {
        same_entries(&self.fields, &other.fields)
    }
}

impl vstd::std_specs::cmp::PartialEqSpecImpl for LogEvent {
    open spec fn obeys_eq_spec() -> bool {
        true
    }

    open spec fn eq_spec(&self, other: &LogEvent) -> bool {
        self@ == other@
    }
}

impl Clone for LogEvent {
    /// A copy of the whole record.
    fn clone(&self) -> (r: Self)
        ensures
            r@ == self@,
    {
        LogEvent { fields: clone_entries(&self.fields) }
    }
}

impl<'b> core::ops::Index<&Lookup<'b>> for LogEvent {
    type Output = Value;

    /// The value that `lookup` addresses, for a caller who knows that it
    /// addresses one. This is a shortcut beside [`LogEvent::get`]: a path
    /// that addresses nothing is the caller's error and is left out.
    fn index(&self, lookup: &Lookup<'b>) -> (value: &Value)
        ensures
            resolve(self@, lookup@) == Some(value@),
    {
        match self.get(lookup) {
            Some(value) => value,
            None => vstd::pervasive::unreached(),
        }
    }
}

impl<'b> vstd::std_specs::core::IndexSpecImpl<&Lookup<'b>> for LogEvent {
    open spec fn index_req(&self, lookup: &&Lookup<'b>) -> bool {
        self.wf() && resolve(self@, lookup@) is Some
    }
}

impl Default for LogEvent {
    /// A record without fields.
    fn default() -> (r: LogEvent)
        ensures
            r@ == Seq::<(Seq<char>, ValueView)>::empty(),
            r.wf(),
    {
        LogEvent::new()
    }
}

impl LogEvent {
    /// The root and every object below it keep their keys in strictly
    /// ascending order.
    pub open spec fn wf(&self) -> bool {
        well_formed(ValueView::Object(self@))
    }

    /// Whether the root and every object below it keep their keys in
    /// strictly ascending order. A record falls short of this only when a
    /// caller has written an object that does into it.
    pub fn is_well_formed(&self) -> (b: bool)
        ensures
            b == self.wf(),
    {
        entries_are_well_formed(&self.fields)
    }

    /// A record without fields.
    pub fn new() -> (r: LogEvent)
        ensures
            r@ == Seq::<(Seq<char>, ValueView)>::empty(),
            r.wf(),
    {
        let r = LogEvent { fields: Vec::new() };
        assert(r@ =~= Seq::<(Seq<char>, ValueView)>::empty());
        r
    }

    /// The value that `lookup` addresses, if it addresses one.
    ///
    /// The walk goes one segment at a time from the root. A field name is
    /// followed only into an object, a position only into an array; a path
    /// that starts with a position addresses nothing.
    ///
    /// Any record can be asked for any path. Of a record that is not well
    /// formed, because a caller has written an object with its keys out of
    /// order into it, no more is said than that the walk ends.
    pub fn get<'a>(&'a self, lookup: &Lookup<'_>) -> (r: Option<&'a Value>)
        ensures
            self.wf() ==> match r {
                Some(v) => resolve(self@, lookup@) == Some(v@),
                None => resolve(self@, lookup@) is None,
            },
            lookup@[0] is Index ==> r is None,
    {
        let segments = lookup.as_slice();
        let ghost path = lookup@;
        let mut cursor: Option<&'a Value> = match segments[0] {
            Segment::Field(name) => match seek_key(&self.fields, name) {
                Ok(i) => Some(&self.fields[i].1),
                Err(_) => None,
            },
            Segment::Index(_) => None,
        };
        let mut i: usize = 1;
        while i < segments.len() && cursor.is_some()
            invariant
                path == segments_view(segments@),
                1 <= i <= segments@.len(),
                self.wf() ==> resolve(self@, path) == match cursor {
                    Some(c) => descend(c@, path.skip(i as int)),
                    None => None,
                },
                self.wf() ==> (cursor matches Some(c) ==> well_formed(c@)),
                path[0] is Index ==> cursor is None,
            decreases segments@.len() - i,
        {
            let c = cursor.unwrap();
            cursor = match (segments[i], c) {
                (Segment::Field(name), Value::Object(entries)) => match seek_key(entries, name) {
                    Ok(k) => Some(&entries[k].1),
                    Err(_) => None,
                },
                (Segment::Index(position), Value::Array(items)) => if position < items.len() {
                    Some(&items[position])
                } else {
                    None
                },
                _ => None,
            };
            proof {
                assert(path.skip(i as int)[0] == path[i as int]);
                assert(path.skip(i as int).skip(1) =~= path.skip(i + 1));
            }
            i += 1;
        }
        cursor
    }

    /// The value that `lookup` addresses, for writing, if it addresses one.
    ///
    /// The walk is that of [`LogEvent::get`], and like it can be asked of any
    /// record for any path. What the caller leaves in the place handed out
    /// takes the place of the value in the record.
    pub fn get_mut<'a>(&'a mut self, lookup: &Lookup<'_>) -> (r: Option<&'a mut Value>)
        ensures
            lookup@[0] is Index ==> r is None,
            old(self).wf() ==> match r {
                Some(slot) => {
                    &&& resolve(old(self)@, lookup@) == Some((*slot)@)
                    &&& ValueView::Object(final(self)@) == substitute(
                        ValueView::Object(old(self)@),
                        lookup@,
                        (*final(slot))@,
                    )
                    &&& well_formed((*final(slot))@) ==> final(self).wf()
                },
                None => {
                    &&& resolve(old(self)@, lookup@) is None
                    &&& final(self)@ == old(self)@
                },
            },
    {
        let segments = lookup.as_slice();
        let ghost path = lookup@;
        let ghost model = self@;
        proof {
            assert(path[0] == segments@[0]@);
            assert(path.skip(1) =~= segments_view(segments@).skip(1));
        }
        match segments[0] {
            Segment::Index(_) => None,
            Segment::Field(name) => match seek_key(&self.fields, name) {
                Err(_) => None,
                Ok(k) => {
                    let ghost before = self.fields@;
                    let child = &mut self.fields[k].1;
                    let ghost child_before = child@;
                    let ghost child_after = (*final(child))@;
                    proof {
                        lemma_entries_view_update(before, k as int);
                        assert(entries_view(before.update(k as int, (before[k as int].0, *final(child))))
                            == model.update(k as int, (before[k as int].0@, child_after)));
                        assert(model[k as int].1 == child_before);
                        assert(old(self).wf() ==> step(ValueView::Object(model), path[0]) == Some(
                            child_before,
                        ));
                        assert(old(self).wf() ==> well_formed(child_before));
                    }
                    let r = value_at_mut(child, segments, 1);
                    proof {
                        assert(old(self).wf() && r is None ==> model.update(
                            k as int,
                            (before[k as int].0@, child_after),
                        ) =~= model);
                        assert(old(self).wf() && r is Some ==> substitute(
                            ValueView::Object(model),
                            path,
                            (*final(r->Some_0))@,
                        ) == with_child(ValueView::Object(model), path[0], child_after));
                        if old(self).wf() {
                            lemma_substitute_well_formed(
                                ValueView::Object(model),
                                path,
                                (*final(r->Some_0))@,
                            );
                        }
                    }
                    r
                },
            },
        }
    }

    /// The value that `lookup` addresses, for writing, for a caller who
    /// knows that it addresses one. This is a shortcut beside
    /// [`LogEvent::get_mut`]: a path that addresses nothing is the caller's
    /// error and is left out.
    pub fn index_mut<'a>(&'a mut self, lookup: &Lookup<'_>) -> (slot: &'a mut Value)
        requires
            old(self).wf(),
            resolve(old(self)@, lookup@) is Some,
        ensures
            resolve(old(self)@, lookup@) == Some((*slot)@),
            ValueView::Object(final(self)@) == substitute(
                ValueView::Object(old(self)@),
                lookup@,
                (*final(slot))@,
            ),
            well_formed((*final(slot))@) ==> final(self).wf(),
    {
        match self.get_mut(lookup) {
            Some(slot) => slot,
            None => vstd::pervasive::unreached(),
        }
    }

    /// The slot that `lookup` names, which may hold a value or nothing yet.
    ///
    /// Every segment but the last must lead through an object that is
    /// already there; nothing is created on the way. A path that starts with
    /// a position is a caller's error and is left out.
    pub fn entry<'a>(&'a mut self, lookup: LookupBuf) -> (r: Result<Entry<'a>, EntryError>)
        requires
            old(self).wf(),
            lookup@[0] is Field,
        ensures
            match r {
                Ok(entry) => {
                    &&& entry.wf()
                    &&& entry.key() == last_name(lookup@)
                    &&& entry is Occupied <==> position_of(entry.before(), entry.key()) is Some
                    &&& slot_owner(old(self)@, lookup@, 0) == Ok::<EntriesView, EntryError>(
                        entry.before(),
                    )
                    &&& final(self)@ == graft(
                        old(self)@,
                        lookup@,
                        match entry {
                            Entry::Occupied(e) => entries_view(final(e.entries)@),
                            Entry::Vacant(e) => entries_view(final(e.entries)@),
                        },
                    )
                },
                Err(e) => {
                    &&& slot_owner(old(self)@, lookup@, 0) == Err::<EntriesView, EntryError>(e)
                    &&& final(self)@ == old(self)@
                },
            },
    {
        let segments = lookup.as_slice();
        proof {
            assert(lookup@.skip(0) =~= lookup@);
        }
        locate(&mut self.fields, segments, 0)
    }

    /// Writes `value` at `lookup` and hands back the value that was there.
    ///
    /// Writing extends what is there: the last segment may name a field
    /// that does not exist yet, but every segment before it must lead
    /// through an object that does. Otherwise nothing is written and the
    /// error says which segment could not be followed. A path that starts
    /// with a position is a caller's error and is left out.
    pub fn insert(&mut self, lookup: LookupBuf, value: Value) -> (r: Result<
        Option<Value>,
        EntryError,
    >)
        requires
            old(self).wf(),
            value.wf(),
            lookup@[0] is Field,
        ensures
            match r {
                Ok(previous) => {
                    &&& insertion(old(self)@, lookup@, value@) == Ok::<EntriesView, EntryError>(
                        final(self)@,
                    )
                    &&& match previous {
                        Some(v) => resolve(old(self)@, lookup@) == Some(v@),
                        None => resolve(old(self)@, lookup@) is None,
                    }
                    &&& final(self).wf()
                },
                Err(e) => {
                    &&& insertion(old(self)@, lookup@, value@) == Err::<EntriesView, EntryError>(e)
                    &&& final(self)@ == old(self)@
                },
            },
    {
        let ghost before = self@;
        let ghost path = lookup@;
        let segments = lookup.as_slice();
        proof {
            assert(path.skip(0) =~= path);
        }
        match locate(&mut self.fields, segments, 0) {
            Err(e) => Err(e),
            Ok(entry) => {
                let ghost owner = entry.before();
                let previous = entry.put(value);
                proof {
                    lemma_resolve_via_owner(before, path, 0);
                    lemma_graft_well_formed(
                        before,
                        path,
                        upsert(owner, last_name(path), value@),
                        0,
                    );
                }
                Ok(previous)
            },
        }
    }

    /// Takes the value that `lookup` addresses out of the record and hands
    /// it back; nothing happens where the path addresses nothing.
    ///
    /// An entry leaves its object, and an item leaves its array with the
    /// items after it moving up. With `prune`, every object or array on the
    /// way that is left empty leaves its parent too; the root stays.
    pub fn remove(&mut self, lookup: &Lookup<'_>, prune: bool) -> (r: Option<Value>)
        requires
            old(self).wf(),
        ensures
            match r {
                Some(taken) => resolve(old(self)@, lookup@) == Some(taken@),
                None => resolve(old(self)@, lookup@) is None,
            },
            ValueView::Object(final(self)@) == removal(
                ValueView::Object(old(self)@),
                lookup@,
                prune,
            ),
            final(self).wf(),
    {
        let segments = lookup.as_slice();
        proof {
            assert(lookup@.skip(0) =~= lookup@);
        }
        remove_from_entries(&mut self.fields, segments, 0, prune)
    }

    /// A walk over every path that addresses a value in the record, which
    /// hands the paths out one at a time, each with its value.
    ///
    /// The paths of containers are handed out as well as those of leaves,
    /// each container before what it holds. The fields of an object come in
    /// the order of their keys, the items of an array by position.
    pub fn walk<'a>(&'a self) -> (walker: FieldWalker<'a>)
        ensures
            walker.pending() == fields_below(ValueView::Object(self@), Seq::empty()),
    {
        FieldWalker::over(&self.fields)
    }

    /// Every path that addresses a value in the record, each with its
    /// value, in the order of [`LogEvent::walk`].
    pub fn all_fields<'a>(&'a self) -> (r: Vec<(Lookup<'a>, &'a Value)>)
        requires
            self.wf(),
        ensures
            fields_view(r@) == fields_below(ValueView::Object(self@), Seq::empty()),
            forall|i: int|
                0 <= i < r@.len() ==> resolve(self@, (#[trigger] r@[i]).0@) == Some(r@[i].1@),
    {
        let mut out: Vec<(Lookup<'a>, &'a Value)> = Vec::new();
        let ghost root = ValueView::Object(self@);
        let ghost listed = fields_below(root, Seq::empty());
        let mut walker = self.walk();
        let mut more = true;
        assert(fields_view(out@) + walker.pending() =~= listed);
        while more
            invariant
                fields_view(out@) + walker.pending() == listed,
                !more ==> walker.pending().len() == 0,
            decreases walker.pending().len() + (if more { 1nat } else { 0nat }),
        {
            let ghost before = fields_view(out@);
            let ghost pending = walker.pending();
            match walker.next() {
                Some(field) => {
                    out.push(field);
                    proof {
                        let one = seq![(field.0@, field.1@)];
                        assert(fields_view(out@) =~= before + one);
                        assert((before + one) + walker.pending() =~= before + (one
                            + walker.pending()));
                    }
                },
                None => {
                    more = false;
                },
            }
        }
        proof {
            assert(fields_view(out@) + walker.pending() =~= fields_view(out@));
            assert forall|i: int| 0 <= i < out@.len() implies resolve(
                self@,
                (#[trigger] out@[i]).0@,
            ) == Some(out@[i].1@) by {
                lemma_fields_resolve(root, root, Seq::empty(), i);
                assert(fields_view(out@)[i] == (out@[i].0@, out@[i].1@));
            }
        }
        out
    }

    /// Every path that addresses a value in the record, in the order of
    /// [`LogEvent::all_fields`].
    pub fn keys<'a>(&'a self) -> (r: Vec<Lookup<'a>>)
        requires
            self.wf(),
        ensures
            lookups_view(r@) == paths_of(fields_below(ValueView::Object(self@), Seq::empty())),
            forall|i: int| 0 <= i < r@.len() ==> resolve(self@, (#[trigger] r@[i])@) is Some,
    {
        let fields = self.all_fields();
        let ghost listed = fields_view(fields@);
        let mut out: Vec<Lookup<'a>> = Vec::new();
        let mut i: usize = 0;
        while i < fields.len()
            invariant
                i <= fields@.len(),
                out@.len() == i,
                forall|j: int| 0 <= j < i ==> (#[trigger] out@[j])@ == fields@[j].0@,
            decreases fields@.len() - i,
        {
            out.push(fields[i].0.clone());
            i += 1;
        }
        proof {
            assert(lookups_view(out@) =~= paths_of(listed));
            assert forall|j: int| 0 <= j < out@.len() implies resolve(
                self@,
                (#[trigger] out@[j])@,
            ) is Some by {
                assert(resolve(self@, fields@[j].0@) == Some(fields@[j].1@));
            }
        }
        out
    }

    /// The record with the given fields, each under its name. Where a name
    /// comes twice, the later value stays.
    pub fn from_pairs(pairs: Vec<(String, Value)>) -> (r: LogEvent)
        requires
            forall|i: int| 0 <= i < pairs@.len() ==> (#[trigger] pairs@[i]).1.wf(),
        ensures
            r@ == written(entries_view(pairs@), pairs@.len()),
            r.wf(),
    {
        let mut fields: Vec<(String, Value)> = Vec::new();
        let ghost given = pairs@;
        let ghost all = entries_view(pairs@);
        assert(entries_view(fields@) =~= written(all, 0));
        for pair in it: pairs
            invariant
                it.seq() == given,
                all == entries_view(given),
                forall|i: int| 0 <= i < given.len() ==> (#[trigger] given[i]).1.wf(),
                entries_view(fields@) == written(all, it.index() as nat),
                well_formed(ValueView::Object(entries_view(fields@))),
        {
            proof {
                assert(pair == given[it.index() as int]);
                assert(all[it.index() as int] == (pair.0@, pair.1@));
            }
            let _ = put_entry(&mut fields, pair.0, pair.1);
        }
        LogEvent { fields }
    }

    /// Tries each of `writes` in turn as [`LogEvent::insert`] does. A write
    /// that cannot be made is passed over, and the rest are still tried.
    pub fn extend(&mut self, writes: Vec<(LookupBuf, Value)>)
        requires
            old(self).wf(),
            forall|i: int|
                0 <= i < writes@.len() ==> (#[trigger] writes@[i]).1.wf() && writes@[i].0@[0] is Field,
        ensures
            final(self)@ == extended(old(self)@, writes_view(writes@), writes@.len()),
            final(self).wf(),
    {
        let ghost given = writes@;
        let ghost all = writes_view(writes@);
        let ghost start = self@;
        for write in it: writes
            invariant
                it.seq() == given,
                all == writes_view(given),
                forall|i: int|
                    0 <= i < given.len() ==> (#[trigger] given[i]).1.wf() && given[i].0@[0] is Field,
                self@ == extended(start, all, it.index() as nat),
                self.wf(),
        {
            proof {
                assert(write == given[it.index() as int]);
                assert(all[it.index() as int] == (write.0@, write.1@));
            }
            let _ = self.insert(write.0, write.1);
        }
    }

    /// The record that comes of trying each of `writes` in turn on a record
    /// without fields.
    pub fn from_iter(writes: Vec<(LookupBuf, Value)>) -> (r: LogEvent)
        requires
            forall|i: int|
                0 <= i < writes@.len() ==> (#[trigger] writes@[i]).1.wf() && writes@[i].0@[0] is Field,
        ensures
            r@ == extended(Seq::empty(), writes_view(writes@), writes@.len()),
            r.wf(),
    {
        let mut event = LogEvent::new();
        event.extend(writes);
        event
    }

    /// The record that an object document comes in as: its members are the
    /// fields. Any other document is no record.
    pub fn try_from(document: Document) -> (r: Result<LogEvent, ConversionError>)
        requires
            document.wf(),
        ensures
            match r {
                Ok(event) => {
                    &&& document@ matches DocumentView::Object(members)
                    &&& event@ == entries_of(members)
                    &&& event.wf()
                },
                Err(e) => {
                    &&& !(document@ is Object)
                    &&& e == (ConversionError::NotAnObject { found: shape_of(document@) })
                },
            },
    {
        match &document {
            Document::Object(members) => {
                let fields = entries_from_members(members);
                proof {
                    lemma_valid_comes_in_well_formed(document@);
                }
                Ok(LogEvent { fields })
            },
            other => Err(ConversionError::NotAnObject { found: other.shape() }),
        }
    }

    /// The object document that the record goes out as: its fields are the
    /// members, in the order of their names.
    pub fn to_document(&self) -> (document: Document)
        ensures
            document@ == DocumentView::Object(members_of(self@)),
            self.wf() ==> document.wf(),
    {
        let members = members_from_entries(&self.fields);
        proof {
            if self.wf() {
                lemma_well_formed_goes_out_valid(ValueView::Object(self@));
            }
        }
        Document::Object(members)
    }

    /// Gives the record up as the object document that it goes out as.
    /// This never fails.
    pub fn try_into(self) -> (r: Result<Document, ConversionError>)
        ensures
            r matches Ok(document) && document@ == DocumentView::Object(members_of(self@)),
            self.wf() ==> r->Ok_0.wf(),
    {
        Ok(self.to_document())
    }

    /// Gives the fields up, each with its name, in the order of the names.
    pub fn into_pairs(self) -> (pairs: Vec<(String, Value)>)
        ensures
            entries_view(pairs@) == self@,
    {
        self.fields
    }

    /// Whether `lookup` addresses a value.
    pub fn contains(&self, lookup: &Lookup<'_>) -> (b: bool)
        ensures
            self.wf() ==> b == (resolve(self@, lookup@) is Some),
            lookup@[0] is Index ==> !b,
    {
        self.get(lookup).is_some()
    }

    /// Whether the record has no field at all.
    pub fn is_empty(&self) -> (b: bool)
        ensures
            b == (self@.len() == 0),
    {
        self.fields.len() == 0
    }

    /// Gives the whole record up as one object value.
    pub fn take(self) -> (v: Value)
        ensures
            v@ == ValueView::Object(self@),
    {
        Value::Object(self.fields)
    }
}

} // verus!
