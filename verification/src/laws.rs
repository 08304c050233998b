//! What holds of the operations of a record, whatever the record and the
//! path.
use vstd::prelude::*;
use vstd::utf8::{encode_utf8_decode_utf8, encode_utf8_valid_utf8};
use crate::document::{
    document_of, elements_of, entries_of, items_of, members_of, valid, value_of, DocumentView,
    MembersView,
};
use crate::entries::{lemma_position_of_entry, lemma_rank_at_gap};
use crate::key_order::{key_lt, lemma_key_lt_asymmetric, lemma_key_lt_total, lemma_key_lt_transitive};
use crate::lookup::{PathView, SegmentView};
use crate::model::{
    descend, entry_fields, fields_below, graft, insertion, item_fields, last_name, position_of,
    rank, removal, resolve, slot_owner, step, substitute, upsert, without_child, EntryError,
};
use crate::value::{keys_ascend, well_formed, EntriesView, ValueView};

verus! {

/// In entries with ascending keys that lack `key`, the keys before the rank
/// of `key` come before it and the keys from the rank on come after it.
pub proof fn lemma_rank_splits(entries: EntriesView, key: Seq<char>)
    requires
        keys_ascend(entries),
        position_of(entries, key) is None,
    ensures
        0 <= rank(entries, key) <= entries.len(),
        forall|j: int| 0 <= j < rank(entries, key) ==> key_lt((#[trigger] entries[j]).0, key),
        forall|j: int|
            rank(entries, key) <= j < entries.len() ==> key_lt(key, (#[trigger] entries[j]).0),
    decreases entries.len(),
{
    if entries.len() > 0 {
        let rest = entries.drop_last();
        let last = entries.len() - 1;
        assert forall|j: int| 0 <= j < rest.len() implies rest[j] == entries[j] by {}
        assert(position_of(rest, key) is None) by {
            if position_of(rest, key) is Some {
                let i = position_of(rest, key)->Some_0;
                assert(entries[i].0 == key);
            }
        }
        lemma_rank_splits(rest, key);
        assert(entries[last].0 != key);
        lemma_key_lt_total(entries[last].0, key);
        if key_lt(entries[last].0, key) {
            assert forall|j: int| 0 <= j < entries.len() implies key_lt(
                (#[trigger] entries[j]).0,
                key,
            ) by {
                if j < last {
                    lemma_key_lt_transitive(entries[j].0, entries[last].0, key);
                }
            }
            lemma_rank_at_gap(entries, key, entries.len() as int);
        } else {
            lemma_key_lt_asymmetric(key, entries[last].0);
        }
    }
}

/// Writing a well-formed value under a key of a well-formed object leaves
/// the object well formed.
pub proof fn lemma_upsert_well_formed(entries: EntriesView, key: Seq<char>, value: ValueView)
    requires
        well_formed(ValueView::Object(entries)),
    ensures
        well_formed(value) ==> well_formed(ValueView::Object(upsert(entries, key, value))),
{
    let after = upsert(entries, key, value);
    if !well_formed(value) {
    } else {
    match position_of(entries, key) {
        Some(i) => {
            assert forall|a: int, b: int| 0 <= a < b < after.len() implies key_lt(
                (#[trigger] after[a]).0,
                (#[trigger] after[b]).0,
            ) by {
                assert(after[a].0 == entries[a].0);
                assert(after[b].0 == entries[b].0);
            }
            assert forall|a: int| 0 <= a < after.len() implies well_formed(
                (#[trigger] after[a]).1,
            ) by {
                if a != i {
                    assert(after[a] == entries[a]);
                }
            }
        },
        None => {
            lemma_rank_splits(entries, key);
            let r = rank(entries, key);
            assert forall|a: int, b: int| 0 <= a < b < after.len() implies key_lt(
                (#[trigger] after[a]).0,
                (#[trigger] after[b]).0,
            ) by {
                let a0 = if a < r { a } else { a - 1 };
                let b0 = if b < r { b } else { b - 1 };
                if a != r {
                    assert(after[a] == entries[a0]);
                }
                if b != r {
                    assert(after[b] == entries[b0]);
                }
            }
            assert forall|a: int| 0 <= a < after.len() implies well_formed(
                (#[trigger] after[a]).1,
            ) by {
                let a0 = if a < r { a } else { a - 1 };
                if a != r {
                    assert(after[a] == entries[a0]);
                }
            }
        },
    }
    }
}

/// Writing under a key keeps the keys in ascending order and puts the value
/// under the key.
pub proof fn lemma_upsert_holds(entries: EntriesView, key: Seq<char>, value: ValueView)
    requires
        keys_ascend(entries),
    ensures
        keys_ascend(upsert(entries, key, value)),
        position_of(upsert(entries, key, value), key) matches Some(j) && upsert(
            entries,
            key,
            value,
        )[j] == (key, value),
        upsert(upsert(entries, key, value), key, value) == upsert(entries, key, value),
{
    let after = upsert(entries, key, value);
    let j = match position_of(entries, key) {
        Some(i) => i,
        None => rank(entries, key),
    };
    match position_of(entries, key) {
        Some(i) => {
            assert forall|a: int, b: int| 0 <= a < b < after.len() implies key_lt(
                (#[trigger] after[a]).0,
                (#[trigger] after[b]).0,
            ) by {
                assert(after[a].0 == entries[a].0);
                assert(after[b].0 == entries[b].0);
            }
        },
        None => {
            lemma_rank_splits(entries, key);
            let r = rank(entries, key);
            assert forall|a: int, b: int| 0 <= a < b < after.len() implies key_lt(
                (#[trigger] after[a]).0,
                (#[trigger] after[b]).0,
            ) by {
                let a0 = if a < r { a } else { a - 1 };
                let b0 = if b < r { b } else { b - 1 };
                if a != r {
                    assert(after[a] == entries[a0]);
                }
                if b != r {
                    assert(after[b] == entries[b0]);
                }
            }
        },
    }
    assert(after[j] == (key, value));
    lemma_position_of_entry(after, j);
    assert(after.update(j, (key, value)) =~= after);
}

/// Walking `a` and then `b` is walking `a` followed by `b`.
pub proof fn lemma_descend_concat(v: ValueView, a: PathView, b: PathView)
    ensures
        descend(v, a + b) == match descend(v, a) {
            Some(x) => descend(x, b),
            None => None,
        },
    decreases a.len(),
{
    if a.len() == 0 {
        assert(a + b =~= b);
    } else {
        assert((a + b)[0] == a[0]);
        assert((a + b).skip(1) =~= a.skip(1) + b);
        match step(v, a[0]) {
            Some(child) => lemma_descend_concat(child, a.skip(1), b),
            None => {},
        }
    }
}

/// Replacing what a path reaches in a well-formed tree by a well-formed
/// value leaves the tree well formed.
pub proof fn lemma_substitute_well_formed(v: ValueView, path: PathView, new: ValueView)
    requires
        well_formed(v),
    ensures
        well_formed(new) ==> well_formed(substitute(v, path, new)),
    decreases path.len(),
{
    if path.len() > 0 && well_formed(new) {
        match step(v, path[0]) {
            Some(child) => {
                let below = substitute(child, path.skip(1), new);
                match (v, path[0]) {
                    (ValueView::Object(entries), SegmentView::Field(name)) => {
                        let i = position_of(entries, name)->Some_0;
                        assert(well_formed(entries[i].1));
                        lemma_substitute_well_formed(child, path.skip(1), new);
                        let after = entries.update(i, (name, below));
                        assert forall|a: int, b: int| 0 <= a < b < after.len() implies key_lt(
                            (#[trigger] after[a]).0,
                            (#[trigger] after[b]).0,
                        ) by {
                            assert(after[a].0 == entries[a].0);
                            assert(after[b].0 == entries[b].0);
                        }
                        assert forall|a: int| 0 <= a < after.len() implies well_formed(
                            (#[trigger] after[a]).1,
                        ) by {
                            if a != i {
                                assert(after[a] == entries[a]);
                            }
                        }
                    },
                    (ValueView::Array(items), SegmentView::Index(position)) => {
                        assert(well_formed(items[position as int]));
                        lemma_substitute_well_formed(child, path.skip(1), new);
                        let after = items.update(position as int, below);
                        assert forall|a: int| 0 <= a < after.len() implies well_formed(
                            #[trigger] after[a],
                        ) by {
                            if a != position {
                                assert(after[a] == items[a]);
                            }
                        }
                    },
                    _ => {},
                }
            },
            None => {},
        }
    }
}

/// Where a path names a slot in a well-formed record, the object that owns
/// the slot is well formed, the slot is named by a field, and the path
/// resolves to what the slot holds.
pub proof fn lemma_resolve_via_owner(entries: EntriesView, path: PathView, depth: int)
    requires
        path.len() > 0,
        well_formed(ValueView::Object(entries)),
        slot_owner(entries, path, depth) is Ok,
    ensures
        well_formed(ValueView::Object(slot_owner(entries, path, depth)->Ok_0)),
        path.last() is Field,
        descend(ValueView::Object(entries), path) == match position_of(
            slot_owner(entries, path, depth)->Ok_0,
            last_name(path),
        ) {
            Some(i) => Some(slot_owner(entries, path, depth)->Ok_0[i].1),
            None => None,
        },
    decreases path.len(),
{
    lemma_descend_via_owner(entries, path, depth);
    if path.len() > 1 {
        let i = position_of(entries, path[0]->Field_0)->Some_0;
        assert(well_formed(entries[i].1));
        lemma_resolve_via_owner(entries[i].1->Object_0, path.skip(1), depth + 1);
        assert(path.skip(1).last() == path.last());
    }
}

/// A graft of what is there changes nothing: a slot that is resolved and
/// left alone leaves the record as it was.
pub proof fn lemma_graft_same(entries: EntriesView, path: PathView, depth: int)
    requires
        slot_owner(entries, path, depth) is Ok,
        path.len() > 0,
    ensures
        graft(entries, path, slot_owner(entries, path, depth)->Ok_0) == entries,
    decreases path.len(),
{
    if path.len() > 1 {
        let name = path[0]->Field_0;
        let i = position_of(entries, name)->Some_0;
        let inner = entries[i].1->Object_0;
        lemma_graft_same(inner, path.skip(1), depth + 1);
        assert(entries.update(i, (name, ValueView::Object(inner))) =~= entries);
    }
}

/// Grafting a well-formed object into a well-formed record leaves the
/// record well formed.
pub proof fn lemma_graft_well_formed(
    entries: EntriesView,
    path: PathView,
    leaf: EntriesView,
    depth: int,
)
    requires
        well_formed(ValueView::Object(entries)),
        slot_owner(entries, path, depth) is Ok,
    ensures
        well_formed(ValueView::Object(leaf)) ==> well_formed(
            ValueView::Object(graft(entries, path, leaf)),
        ),
    decreases path.len(),
{
    if path.len() > 1 && well_formed(ValueView::Object(leaf)) {
        let name = path[0]->Field_0;
        let i = position_of(entries, name)->Some_0;
        let inner = entries[i].1->Object_0;
        assert(well_formed(entries[i].1));
        lemma_graft_well_formed(inner, path.skip(1), leaf, depth + 1);
        let after = graft(entries, path, leaf);
        assert forall|a: int, b: int| 0 <= a < b < after.len() implies key_lt(
            (#[trigger] after[a]).0,
            (#[trigger] after[b]).0,
        ) by {
            assert(after[a].0 == entries[a].0);
            assert(after[b].0 == entries[b].0);
        }
        assert forall|a: int| 0 <= a < after.len() implies well_formed((#[trigger] after[a]).1) by {
            if a != i {
                assert(after[a] == entries[a]);
            }
        }
    }
}

/// After a graft, the path names the slot in the grafted object, and a
/// second graft along the path replaces the first.
pub proof fn lemma_graft_again(
    entries: EntriesView,
    path: PathView,
    leaf: EntriesView,
    other: EntriesView,
    depth: int,
)
    requires
        well_formed(ValueView::Object(entries)),
        slot_owner(entries, path, depth) is Ok,
        path.len() > 0,
    ensures
        slot_owner(graft(entries, path, leaf), path, depth) == Ok::<EntriesView, EntryError>(leaf),
        graft(graft(entries, path, leaf), path, other) == graft(entries, path, other),
    decreases path.len(),
{
    if path.len() > 1 {
        let name = path[0]->Field_0;
        let i = position_of(entries, name)->Some_0;
        let inner = entries[i].1->Object_0;
        assert(well_formed(entries[i].1));
        lemma_graft_again(inner, path.skip(1), leaf, other, depth + 1);
        let after = graft(entries, path, leaf);
        assert forall|a: int, b: int| 0 <= a < b < after.len() implies key_lt(
            (#[trigger] after[a]).0,
            (#[trigger] after[b]).0,
        ) by {
            assert(after[a].0 == entries[a].0);
            assert(after[b].0 == entries[b].0);
        }
        lemma_position_of_entry(after, i);
        assert(after.update(
            i,
            (name, ValueView::Object(graft(graft(inner, path.skip(1), leaf), path.skip(1), other))),
        ) =~= entries.update(i, (name, ValueView::Object(graft(inner, path.skip(1), other)))));
    }
}

/// A value that has been written at a path is what the path resolves to.
pub proof fn lemma_insert_then_get(entries: EntriesView, path: PathView, value: ValueView)
    requires
        well_formed(ValueView::Object(entries)),
        path.len() > 0,
        insertion(entries, path, value) is Ok,
    ensures
        resolve(insertion(entries, path, value)->Ok_0, path) == Some(value),
{
    let owner = slot_owner(entries, path, 0)->Ok_0;
    let leaf = upsert(owner, last_name(path), value);
    lemma_resolve_via_owner(entries, path, 0);
    lemma_upsert_holds(owner, last_name(path), value);
    lemma_graft_again(entries, path, leaf, leaf, 0);
    let after = graft(entries, path, leaf);
    lemma_descend_via_owner(after, path, 0);
}

/// Writing the same value at the same path a second time changes nothing,
/// and finds the value of the first time there.
pub proof fn lemma_insert_twice(entries: EntriesView, path: PathView, value: ValueView)
    requires
        well_formed(ValueView::Object(entries)),
        path.len() > 0,
        insertion(entries, path, value) is Ok,
    ensures
        insertion(insertion(entries, path, value)->Ok_0, path, value) == insertion(
            entries,
            path,
            value,
        ),
        resolve(insertion(entries, path, value)->Ok_0, path) == Some(value),
{
    let owner = slot_owner(entries, path, 0)->Ok_0;
    let leaf = upsert(owner, last_name(path), value);
    lemma_resolve_via_owner(entries, path, 0);
    lemma_upsert_holds(owner, last_name(path), value);
    lemma_graft_again(entries, path, leaf, leaf, 0);
    lemma_insert_then_get(entries, path, value);
}

/// Where a path names a slot, the path resolves to what the slot holds.
pub proof fn lemma_descend_via_owner(entries: EntriesView, path: PathView, depth: int)
    requires
        path.len() > 0,
        slot_owner(entries, path, depth) is Ok,
    ensures
        descend(ValueView::Object(entries), path) == match position_of(
            slot_owner(entries, path, depth)->Ok_0,
            last_name(path),
        ) {
            Some(i) => Some(slot_owner(entries, path, depth)->Ok_0[i].1),
            None => None,
        },
    decreases path.len(),
{
    let name = path[0]->Field_0;
    if path.len() == 1 {
        assert(path.skip(1).len() == 0);
        match position_of(entries, name) {
            Some(i) => {
                assert(descend(entries[i].1, path.skip(1)) == Some(entries[i].1));
            },
            None => {},
        }
    } else {
        let i = position_of(entries, name)->Some_0;
        let inner = entries[i].1->Object_0;
        lemma_descend_via_owner(inner, path.skip(1), depth + 1);
        assert(path.skip(1).last() == path.last());
    }
}

/// An object that loses the entry under a key has no entry under that key
/// any more.
pub proof fn lemma_removed_key_is_gone(entries: EntriesView, i: int)
    requires
        keys_ascend(entries),
        0 <= i < entries.len(),
    ensures
        position_of(entries.remove(i), entries[i].0) is None,
{
    let less = entries.remove(i);
    if position_of(less, entries[i].0) is Some {
        let k = position_of(less, entries[i].0)->Some_0;
        let k0 = if k < i { k } else { k + 1 };
        assert(less[k] == entries[k0]);
        if k0 < i {
            lemma_key_lt_asymmetric(entries[k0].0, entries[i].0);
        } else {
            lemma_key_lt_asymmetric(entries[i].0, entries[k0].0);
        }
    }
}

/// What has been taken out by a path of field names is no longer there:
/// the path then addresses nothing. (Of a path through an array this does
/// not hold: the item that moves up may have what the one before it had.)
pub proof fn lemma_removed_field_is_gone(v: ValueView, path: PathView, prune: bool)
    requires
        well_formed(v),
        path.len() > 0,
        forall|i: int| 0 <= i < path.len() ==> (#[trigger] path[i]) is Field,
        descend(v, path) is Some,
    ensures
        descend(removal(v, path, prune), path) is None,
    decreases path.len(),
{
    let child = step(v, path[0])->Some_0;
    let rest = path.skip(1);
    let after = removal(v, path, prune);
    assert(path[0] is Field);
    if path.len() == 1 {
        match (v, path[0]) {
            (ValueView::Object(entries), SegmentView::Field(name)) => {
                let i = position_of(entries, name)->Some_0;
                lemma_removed_key_is_gone(entries, i);
            },
            _ => {},
        }
    } else {
        assert forall|i: int| 0 <= i < rest.len() implies (#[trigger] rest[i]) is Field by {
            assert(rest[i] == path[i + 1]);
        }
        match (v, path[0]) {
            (ValueView::Object(entries), SegmentView::Field(name)) => {
                let i = position_of(entries, name)->Some_0;
                assert(well_formed(entries[i].1));
                lemma_removed_field_is_gone(child, rest, prune);
                let below = removal(child, rest, prune);
                if after == without_child(v, path[0]) {
                    lemma_removed_key_is_gone(entries, i);
                } else {
                    let changed = entries.update(i, (name, below));
                    assert forall|a: int, b: int| 0 <= a < b < changed.len() implies key_lt(
                        (#[trigger] changed[a]).0,
                        (#[trigger] changed[b]).0,
                    ) by {
                        assert(changed[a].0 == entries[a].0);
                        assert(changed[b].0 == entries[b].0);
                    }
                    lemma_position_of_entry(changed, i);
                }
            },
            _ => {},
        }
    }
}

/// A path that starts with a position addresses nothing in a record.
pub proof fn lemma_position_first_resolves_nothing(entries: EntriesView, path: PathView)
    requires
        path.len() > 0,
        path[0] is Index,
    ensures
        resolve(entries, path) is None,
{
}

/// A step leads somewhere only from a container of the kind that the
/// segment asks for: by name from an object, by position from an array.
pub proof fn lemma_step_needs_its_kind(v: ValueView, segment: SegmentView)
    ensures
        step(v, segment) is Some ==> (v is Object && segment is Field) || (v is Array
            && segment is Index),
{
}

/// A path addresses nothing once one of its segments leads nowhere,
/// whatever segments follow.
pub proof fn lemma_mismatch_resolves_nothing(
    v: ValueView,
    before: PathView,
    segment: SegmentView,
    after: PathView,
)
    requires
        match descend(v, before) {
            Some(reached) => step(reached, segment) is None,
            None => true,
        },
    ensures
        descend(v, before + seq![segment] + after) is None,
{
    lemma_descend_concat(v, before, seq![segment] + after);
    assert(before + (seq![segment] + after) =~= before + seq![segment] + after);
    assert((seq![segment] + after)[0] == segment);
}

/// What a listing holds for the entries of an object, each resolves from
/// `root` to the value listed with it.
pub proof fn lemma_entry_fields_resolve(
    root: ValueView,
    entries: EntriesView,
    prefix: PathView,
    n: nat,
    k: int,
)
    requires
        well_formed(ValueView::Object(entries)),
        descend(root, prefix) == Some(ValueView::Object(entries)),
        n <= entries.len(),
        0 <= k < entry_fields(entries, prefix, n).len(),
    ensures
        descend(root, entry_fields(entries, prefix, n)[k].0) == Some(
            entry_fields(entries, prefix, n)[k].1,
        ),
        entry_fields(entries, prefix, n)[k].0.len() > prefix.len(),
    decreases entries, n, 0nat,
{
    if n > 0 {
        let earlier = entry_fields(entries, prefix, (n - 1) as nat);
        let segment = SegmentView::Field(entries[n - 1].0);
        let here = prefix.push(segment);
        let child = entries[n - 1].1;
        assert(here =~= prefix + seq![segment]);
        lemma_descend_concat(root, prefix, seq![segment]);
        lemma_position_of_entry(entries, n - 1);
        assert(seq![segment].skip(1).len() == 0);
        assert(descend(child, seq![segment].skip(1)) == Some(child));
        assert(descend(root, here) == Some(child));
        if k < earlier.len() {
            lemma_entry_fields_resolve(root, entries, prefix, (n - 1) as nat, k);
        } else if k > earlier.len() {
            assert(well_formed(child));
            lemma_fields_resolve(root, child, here, k - earlier.len() - 1);
        }
    }
}

/// What a listing holds for the items of an array, each resolves from
/// `root` to the value listed with it.
pub proof fn lemma_item_fields_resolve(
    root: ValueView,
    items: Seq<ValueView>,
    prefix: PathView,
    n: nat,
    k: int,
)
    requires
        well_formed(ValueView::Array(items)),
        descend(root, prefix) == Some(ValueView::Array(items)),
        n <= items.len(),
        0 <= k < item_fields(items, prefix, n).len(),
    ensures
        descend(root, item_fields(items, prefix, n)[k].0) == Some(
            item_fields(items, prefix, n)[k].1,
        ),
        item_fields(items, prefix, n)[k].0.len() > prefix.len(),
    decreases items, n, 0nat,
{
    if n > 0 {
        let earlier = item_fields(items, prefix, (n - 1) as nat);
        let segment = SegmentView::Index((n - 1) as nat);
        let here = prefix.push(segment);
        let child = items[n - 1];
        assert(here =~= prefix + seq![segment]);
        lemma_descend_concat(root, prefix, seq![segment]);
        assert(seq![segment].skip(1).len() == 0);
        assert(descend(child, seq![segment].skip(1)) == Some(child));
        assert(descend(root, here) == Some(child));
        if k < earlier.len() {
            lemma_item_fields_resolve(root, items, prefix, (n - 1) as nat, k);
        } else if k > earlier.len() {
            assert(well_formed(child));
            lemma_fields_resolve(root, child, here, k - earlier.len() - 1);
        }
    }
}

/// Every path of a listing resolves to the value listed with it: where
/// `prefix` leads from `root` to `v`, each path listed below `v` leads from
/// `root` to its value.
pub proof fn lemma_fields_resolve(root: ValueView, v: ValueView, prefix: PathView, k: int)
    requires
        well_formed(v),
        descend(root, prefix) == Some(v),
        0 <= k < fields_below(v, prefix).len(),
    ensures
        descend(root, fields_below(v, prefix)[k].0) == Some(fields_below(v, prefix)[k].1),
        fields_below(v, prefix)[k].0.len() > prefix.len(),
    decreases v, 0nat, 1nat,
{
    match v {
        ValueView::Object(entries) => {
            lemma_entry_fields_resolve(root, entries, prefix, entries.len(), k);
        },
        ValueView::Array(items) => {
            lemma_item_fields_resolve(root, items, prefix, items.len(), k);
        },
        _ => {},
    }
}

/// The listing for the first `n` entries of an object holds the entry at
/// `i`, for `i` below `n`, and all that is listed below it.
pub proof fn lemma_entry_fields_include(
    entries: EntriesView,
    prefix: PathView,
    n: nat,
    i: int,
    x: (PathView, ValueView),
)
    requires
        0 <= i < n <= entries.len(),
        x == (prefix.push(SegmentView::Field(entries[i].0)), entries[i].1) || fields_below(
            entries[i].1,
            prefix.push(SegmentView::Field(entries[i].0)),
        ).contains(x),
    ensures
        entry_fields(entries, prefix, n).contains(x),
    decreases n,
{
    let whole = entry_fields(entries, prefix, n);
    let earlier = entry_fields(entries, prefix, (n - 1) as nat);
    let here = prefix.push(SegmentView::Field(entries[n - 1].0));
    let below = fields_below(entries[n - 1].1, here);
    if i == n - 1 {
        if x == (here, entries[i].1) {
            assert(whole[earlier.len() as int] == x);
        } else {
            let j = choose|j: int| 0 <= j < below.len() && below[j] == x;
            assert(whole[earlier.len() + 1 + j] == x);
        }
    } else {
        lemma_entry_fields_include(entries, prefix, (n - 1) as nat, i, x);
        let j = choose|j: int| 0 <= j < earlier.len() && earlier[j] == x;
        assert(whole[j] == x);
    }
}

/// The listing for the first `n` items of an array holds the item at `i`,
/// for `i` below `n`, and all that is listed below it.
pub proof fn lemma_item_fields_include(
    items: Seq<ValueView>,
    prefix: PathView,
    n: nat,
    i: int,
    x: (PathView, ValueView),
)
    requires
        0 <= i < n <= items.len(),
        x == (prefix.push(SegmentView::Index(i as nat)), items[i]) || fields_below(
            items[i],
            prefix.push(SegmentView::Index(i as nat)),
        ).contains(x),
    ensures
        item_fields(items, prefix, n).contains(x),
    decreases n,
{
    let whole = item_fields(items, prefix, n);
    let earlier = item_fields(items, prefix, (n - 1) as nat);
    let here = prefix.push(SegmentView::Index((n - 1) as nat));
    let below = fields_below(items[n - 1], here);
    if i == n - 1 {
        if x == (here, items[i]) {
            assert(whole[earlier.len() as int] == x);
        } else {
            let j = choose|j: int| 0 <= j < below.len() && below[j] == x;
            assert(whole[earlier.len() + 1 + j] == x);
        }
    } else {
        lemma_item_fields_include(items, prefix, (n - 1) as nat, i, x);
        let j = choose|j: int| 0 <= j < earlier.len() && earlier[j] == x;
        assert(whole[j] == x);
    }
}

/// A listing is complete: every path that leads from `v` to a value is
/// listed, after `prefix`, with that value.
pub proof fn lemma_fields_complete(v: ValueView, prefix: PathView, path: PathView)
    requires
        path.len() > 0,
        descend(v, path) is Some,
    ensures
        fields_below(v, prefix).contains((prefix + path, descend(v, path)->Some_0)),
    decreases path.len(),
{
    let segment = path[0];
    let rest = path.skip(1);
    let child = step(v, segment)->Some_0;
    let here = prefix.push(segment);
    let x = (prefix + path, descend(v, path)->Some_0);
    assert(here + rest =~= prefix + path);
    assert(descend(v, path) == descend(child, rest));
    if rest.len() == 0 {
        assert(here =~= prefix + path);
        assert(x == (here, child));
    } else {
        lemma_fields_complete(child, here, rest);
    }
    match (v, segment) {
        (ValueView::Object(entries), SegmentView::Field(name)) => {
            let i = position_of(entries, name)->Some_0;
            lemma_entry_fields_include(entries, prefix, entries.len(), i, x);
        },
        (ValueView::Array(items), SegmentView::Index(position)) => {
            lemma_item_fields_include(items, prefix, items.len(), position as int, x);
        },
        _ => {},
    }
}

/// A document that has come in as a value goes out as the same document.
pub proof fn lemma_document_round_trip(d: DocumentView)
    ensures
        document_of(value_of(d)) == d,
    decreases d,
{
    match d {
        DocumentView::Text(text) => {
            encode_utf8_valid_utf8(text);
            encode_utf8_decode_utf8(text);
        },
        DocumentView::Array(elements) => {
            let back = elements_of(items_of(elements));
            assert forall|i: int| 0 <= i < elements.len() implies back[i] == elements[i] by {
                lemma_document_round_trip(elements[i]);
            }
            assert(back =~= elements);
        },
        DocumentView::Object(members) => {
            let back = members_of(entries_of(members));
            assert forall|i: int| 0 <= i < members.len() implies back[i] == members[i] by {
                lemma_document_round_trip(members[i].1);
            }
            assert(back =~= members);
        },
        _ => {},
    }
}

/// A record that was made from an object document goes out as that
/// document, and the document that it goes out as comes in as the same
/// record.
pub proof fn lemma_record_round_trip(members: MembersView)
    ensures
        members_of(entries_of(members)) == members,
        entries_of(members_of(entries_of(members))) == entries_of(members),
{
    lemma_document_round_trip(DocumentView::Object(members));
}

/// A valid document comes in as a well-formed value.
pub proof fn lemma_valid_comes_in_well_formed(d: DocumentView)
    requires
        valid(d),
    ensures
        well_formed(value_of(d)),
    decreases d,
{
    match d {
        DocumentView::Array(elements) => {
            let items = items_of(elements);
            assert forall|i: int| 0 <= i < items.len() implies well_formed(#[trigger] items[i]) by {
                assert(valid(elements[i]));
                lemma_valid_comes_in_well_formed(elements[i]);
            }
        },
        DocumentView::Object(members) => {
            let entries = entries_of(members);
            assert forall|i: int| 0 <= i < entries.len() implies well_formed(
                (#[trigger] entries[i]).1,
            ) by {
                assert(valid(members[i].1));
                lemma_valid_comes_in_well_formed(members[i].1);
            }
            assert forall|i: int, j: int| 0 <= i < j < entries.len() implies key_lt(
                (#[trigger] entries[i]).0,
                (#[trigger] entries[j]).0,
            ) by {
                assert(key_lt(members[i].0, members[j].0));
            }
        },
        _ => {},
    }
}

/// A well-formed value goes out as a valid document.
pub proof fn lemma_well_formed_goes_out_valid(v: ValueView)
    requires
        well_formed(v),
    ensures
        valid(document_of(v)),
    decreases v,
{
    match v {
        ValueView::Array(items) => {
            let elements = elements_of(items);
            assert forall|i: int| 0 <= i < elements.len() implies valid(#[trigger] elements[i]) by {
                assert(well_formed(items[i]));
                lemma_well_formed_goes_out_valid(items[i]);
            }
        },
        ValueView::Object(entries) => {
            let members = members_of(entries);
            assert forall|i: int| 0 <= i < members.len() implies valid((#[trigger] members[i]).1) by {
                assert(well_formed(entries[i].1));
                lemma_well_formed_goes_out_valid(entries[i].1);
            }
            assert forall|i: int, j: int| 0 <= i < j < members.len() implies key_lt(
                (#[trigger] members[i]).0,
                (#[trigger] members[j]).0,
            ) by {
                assert(key_lt(entries[i].0, entries[j].0));
            }
        },
        _ => {},
    }
}

} // verus!
