//! What the operations of a record mean, stated on the model of a value
//! tree and of a path.
use vstd::prelude::*;
use crate::key_order::key_lt;
use crate::lookup::{PathView, SegmentView};
use crate::value::{is_empty_container, kind_of, EntriesView, Kind, ValueView};

verus! {

/// Where the entry for `key` stands among `entries`, if there is one.
pub open spec fn position_of(entries: EntriesView, key: Seq<char>) -> Option<int> {
    if exists|i: int| 0 <= i < entries.len() && (#[trigger] entries[i]).0 == key {
        Some(choose|i: int| 0 <= i < entries.len() && (#[trigger] entries[i]).0 == key)
    } else {
        None
    }
}

/// How many of `entries` have a key that comes before `key`.
pub open spec fn rank(entries: EntriesView, key: Seq<char>) -> int
    decreases entries.len(),
{
    if entries.len() == 0 {
        0
    } else {
        rank(entries.drop_last(), key) + if key_lt(entries.last().0, key) {
            1int
        } else {
            0int
        }
    }
}

/// One step down from `v`: a field name leads into an object that has the
/// key, a position leads into an array that is long enough, and nothing else
/// leads anywhere.
pub open spec fn step(v: ValueView, segment: SegmentView) -> Option<ValueView> {
    match (v, segment) {
        (ValueView::Object(entries), SegmentView::Field(name)) => match position_of(entries, name) {
            Some(i) => Some(entries[i].1),
            None => None,
        },
        (ValueView::Array(items), SegmentView::Index(position)) => if position < items.len() {
            Some(items[position as int])
        } else {
            None
        },
        _ => None,
    }
}

/// The value reached from `v` by walking `path`, one segment at a time.
/// The walk stops with nothing at the first segment that leads nowhere.
pub open spec fn descend(v: ValueView, path: PathView) -> Option<ValueView>
    decreases path.len(),
{
    if path.len() == 0 {
        Some(v)
    } else {
        match step(v, path[0]) {
            Some(child) => descend(child, path.skip(1)),
            None => None,
        }
    }
}

/// The value that `path` addresses in a record with the top-level `entries`.
/// An empty path addresses nothing, and neither does one that starts with a
/// position: the root of a record is keyed by name.
pub open spec fn resolve(entries: EntriesView, path: PathView) -> Option<ValueView> {
    if path.len() == 0 {
        None
    } else {
        descend(ValueView::Object(entries), path)
    }
}

/// `v` with the child that `segment` leads to replaced by `child`; `v`
/// itself where the segment leads nowhere.
pub open spec fn with_child(v: ValueView, segment: SegmentView, child: ValueView) -> ValueView {
    match (v, segment) {
        (ValueView::Object(entries), SegmentView::Field(name)) => match position_of(entries, name) {
            Some(i) => ValueView::Object(entries.update(i, (name, child))),
            None => v,
        },
        (ValueView::Array(items), SegmentView::Index(position)) => if position < items.len() {
            ValueView::Array(items.update(position as int, child))
        } else {
            v
        },
        _ => v,
    }
}

/// `v` with the value that `path` reaches replaced by `new`; `v` itself where
/// the path reaches nothing.
pub open spec fn substitute(v: ValueView, path: PathView, new: ValueView) -> ValueView
    decreases path.len(),
{
    if path.len() == 0 {
        new
    } else {
        match step(v, path[0]) {
            Some(child) => with_child(v, path[0], substitute(child, path.skip(1), new)),
            None => v,
        }
    }
}

/// `v` without the child that `segment` leads to, the children after it
/// moving up; `v` itself where the segment leads nowhere.
pub open spec fn without_child(v: ValueView, segment: SegmentView) -> ValueView {
    match (v, segment) {
        (ValueView::Object(entries), SegmentView::Field(name)) => match position_of(entries, name) {
            Some(i) => ValueView::Object(entries.remove(i)),
            None => v,
        },
        (ValueView::Array(items), SegmentView::Index(position)) => if position < items.len() {
            ValueView::Array(items.remove(position as int))
        } else {
            v
        },
        _ => v,
    }
}

/// `v` after the value that `path` reaches has been taken out of it; `v`
/// itself where the path reaches nothing.
///
/// With `prune`, every container on the way that the removal leaves empty
/// is taken out of its parent as well; `v` itself always stays.
pub open spec fn removal(v: ValueView, path: PathView, prune: bool) -> ValueView
    decreases path.len(),
{
    if path.len() == 0 {
        v
    } else {
        match step(v, path[0]) {
            None => v,
            Some(child) => if path.len() == 1 {
                without_child(v, path[0])
            } else if descend(child, path.skip(1)) is None {
                v
            } else {
                let below = removal(child, path.skip(1), prune);
                if prune && is_empty_container(below) {
                    without_child(v, path[0])
                } else {
                    with_child(v, path[0], below)
                }
            },
        }
    }
}

/// Every path that leads from `v` to a value below it, with that value, each
/// path written after `prefix`. A container comes before what it holds; the
/// entries of an object come in the order of their keys, the items of an
/// array by position.
pub open spec fn fields_below(v: ValueView, prefix: PathView) -> Seq<(PathView, ValueView)>
    decreases v, 0nat,
{
    match v {
        ValueView::Object(entries) => entry_fields(entries, prefix, entries.len()),
        ValueView::Array(items) => item_fields(items, prefix, items.len()),
        _ => Seq::empty(),
    }
}

/// What [`fields_below`] lists for the first `n` entries of an object.
pub open spec fn entry_fields(entries: EntriesView, prefix: PathView, n: nat) -> Seq<
    (PathView, ValueView),
>
    decreases entries, n,
{
    if n == 0 || n > entries.len() {
        Seq::empty()
    } else {
        let here = prefix.push(SegmentView::Field(entries[n - 1].0));
        entry_fields(entries, prefix, (n - 1) as nat) + seq![(here, entries[n - 1].1)]
            + fields_below(entries[n - 1].1, here)
    }
}

/// What [`fields_below`] lists for the first `n` items of an array.
pub open spec fn item_fields(items: Seq<ValueView>, prefix: PathView, n: nat) -> Seq<
    (PathView, ValueView),
>
    decreases items, n,
{
    if n == 0 || n > items.len() {
        Seq::empty()
    } else {
        let here = prefix.push(SegmentView::Index((n - 1) as nat));
        item_fields(items, prefix, (n - 1) as nat) + seq![(here, items[n - 1])] + fields_below(
            items[n - 1],
            here,
        )
    }
}

/// The paths of a listing, in its order.
pub open spec fn paths_of(fields: Seq<(PathView, ValueView)>) -> Seq<PathView> {
    Seq::new(fields.len(), |i: int| fields[i].0)
}

/// Why a path names no slot that could be written.
#[derive(Clone, Copy, Debug, PartialEq, Eq, Structural)]
pub enum EntryError {
    /// The segment at `at` names a field, but the value that the segments
    /// before it lead to is of kind `found`, which has no fields.
    NotAnObject { at: usize, found: Kind },
    /// The segment at `at` names a field of a parent that does not exist.
    MissingParent { at: usize },
    /// The segment at `at` is a position: slots inside arrays are not
    /// resolved.
    ArrayIndex { at: usize },
}

/// `entries` with `value` under `key`: in place of the value that the key had,
/// or as a new entry where the order of the keys puts it.
pub open spec fn upsert(entries: EntriesView, key: Seq<char>, value: ValueView) -> EntriesView {
    match position_of(entries, key) {
        Some(i) => entries.update(i, (key, value)),
        None => entries.insert(rank(entries, key), (key, value)),
    }
}

/// The entries of the object in which the last segment of `path` names a
/// slot, found by walking all segments but the last from `entries`; or the
/// reason why there is no such object. `depth` is the number of segments
/// already walked.
///
/// Segment by segment: a position cannot be walked, nor can it name the
/// slot; a field name can be walked only from a parent that exists and is an
/// object.
pub open spec fn slot_owner(entries: EntriesView, path: PathView, depth: int) -> Result<
    EntriesView,
    EntryError,
>
    decreases path.len(),
{
    if path.len() == 0 {
        Ok(entries)
    } else if path[0] is Index {
        Err(EntryError::ArrayIndex { at: depth as usize })
    } else if path.len() == 1 {
        Ok(entries)
    } else {
        match (path[0], path[1]) {
            (_, SegmentView::Index(_)) => Err(EntryError::ArrayIndex { at: (depth + 1) as usize }),
            (SegmentView::Index(_), _) => Err(EntryError::ArrayIndex { at: depth as usize }),
            (SegmentView::Field(name), SegmentView::Field(_)) => match position_of(entries, name) {
                None => Err(EntryError::MissingParent { at: (depth + 1) as usize }),
                Some(i) => match entries[i].1 {
                    ValueView::Object(inner) => slot_owner(inner, path.skip(1), depth + 1),
                    other => Err(
                        EntryError::NotAnObject { at: (depth + 1) as usize, found: kind_of(other) },
                    ),
                },
            },
        }
    }
}

/// `entries` with the object that [`slot_owner`] finds for `path` holding
/// `leaf` instead of what it held.
pub open spec fn graft(entries: EntriesView, path: PathView, leaf: EntriesView) -> EntriesView
    decreases path.len(),
{
    if path.len() <= 1 {
        leaf
    } else {
        match path[0] {
            SegmentView::Field(name) => match position_of(entries, name) {
                Some(i) => match entries[i].1 {
                    ValueView::Object(inner) => entries.update(
                        i,
                        (name, ValueView::Object(graft(inner, path.skip(1), leaf))),
                    ),
                    _ => entries,
                },
                None => entries,
            },
            SegmentView::Index(_) => entries,
        }
    }
}

/// The entries that come of writing the first `n` of `pairs` one after the
/// other, each under its key, into an object that starts empty. Of two pairs
/// with one key the later stays.
pub open spec fn written(pairs: EntriesView, n: nat) -> EntriesView
    decreases n,
{
    if n == 0 || n > pairs.len() {
        Seq::empty()
    } else {
        upsert(written(pairs, (n - 1) as nat), pairs[n - 1].0, pairs[n - 1].1)
    }
}

/// The top-level entries of a record after the first `n` of `writes` have
/// been tried in turn, each a path and the value to write there. A write
/// that cannot be made leaves the record as it was.
pub open spec fn extended(entries: EntriesView, writes: Seq<(PathView, ValueView)>, n: nat) -> EntriesView
    decreases n,
{
    if n == 0 || n > writes.len() {
        entries
    } else {
        let so_far = extended(entries, writes, (n - 1) as nat);
        match insertion(so_far, writes[n - 1].0, writes[n - 1].1) {
            Ok(after) => after,
            Err(_) => so_far,
        }
    }
}

/// The name that the last segment of `path` holds.
pub open spec fn last_name(path: PathView) -> Seq<char> {
    match path.last() {
        SegmentView::Field(name) => name,
        SegmentView::Index(_) => Seq::empty(),
    }
}

/// The top-level entries of a record after `value` is written at `path`, or
/// the reason why it cannot be written there.
///
/// Writing extends what is there: the last segment may name a new field,
/// but every segment before it must lead into an object that exists.
pub open spec fn insertion(entries: EntriesView, path: PathView, value: ValueView) -> Result<
    EntriesView,
    EntryError,
> {
    match slot_owner(entries, path, 0) {
        Ok(owner) => Ok(graft(entries, path, upsert(owner, last_name(path), value))),
        Err(e) => Err(e),
    }
}

} // verus!
