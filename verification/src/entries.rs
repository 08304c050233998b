//! The entries of an object: pairs of key and value, kept in key order with
//! each key once.
use vstd::prelude::*;
use vstd::string::*;
use crate::key_order::{key_lt, key_order, lemma_key_lt_asymmetric, lemma_key_lt_transitive, KeyOrder};
use crate::model::{position_of, rank};
use crate::value::{entries_view, keys_ascend, EntriesView, Value};

verus! {

/// In entries with ascending keys, an entry is the only one with its key.
pub proof fn lemma_position_of_entry(entries: EntriesView, i: int)
    requires
        keys_ascend(entries),
        0 <= i < entries.len(),
    ensures
        position_of(entries, entries[i].0) == Some(i),
{
    let key = entries[i].0;
    let found = choose|j: int| 0 <= j < entries.len() && (#[trigger] entries[j]).0 == key;
    if found < i {
        lemma_key_lt_asymmetric(entries[found].0, entries[i].0);
    } else if i < found {
        lemma_key_lt_asymmetric(entries[i].0, entries[found].0);
    }
}

/// Where the keys before `key` end and no entry has the key itself, the key
/// is absent and that place is its rank.
pub proof fn lemma_rank_at_gap(entries: EntriesView, key: Seq<char>, gap: int)
    requires
        0 <= gap <= entries.len(),
        forall|j: int| 0 <= j < gap ==> key_lt((#[trigger] entries[j]).0, key),
        forall|j: int| gap <= j < entries.len() ==> key_lt(key, (#[trigger] entries[j]).0),
    ensures
        rank(entries, key) == gap,
        position_of(entries, key) is None,
    decreases entries.len(),
{
    assert forall|j: int| 0 <= j < entries.len() implies (#[trigger] entries[j]).0 != key by {
        if j < gap {
            lemma_key_lt_asymmetric(entries[j].0, key);
        } else {
            lemma_key_lt_asymmetric(key, entries[j].0);
        }
    }
    if entries.len() > 0 {
        let rest = entries.drop_last();
        let last = entries.len() - 1;
        assert forall|j: int| 0 <= j < rest.len() implies rest[j] == entries[j] by {}
        if gap == entries.len() {
            lemma_rank_at_gap(rest, key, gap - 1);
            assert(key_lt(entries[last].0, key));
        } else {
            lemma_rank_at_gap(rest, key, gap);
            lemma_key_lt_asymmetric(key, entries[last].0);
        }
    }
}

/// Whether the keys in `keys` stand in strictly ascending order.
pub open spec fn ascending(keys: Seq<Seq<char>>) -> bool {
    forall|i: int, j: int| 0 <= i < j < keys.len() ==> key_lt(#[trigger] keys[i], #[trigger] keys[j])
}

/// Keys of which each comes before the next stand in ascending order.
pub proof fn lemma_neighbours_ascend(keys: Seq<Seq<char>>)
    requires
        forall|i: int| 0 < i < keys.len() ==> key_lt(keys[i - 1], #[trigger] keys[i]),
    ensures
        ascending(keys),
    decreases keys.len(),
{
    if keys.len() > 1 {
        let rest = keys.drop_last();
        let last = keys.len() - 1;
        assert forall|i: int| 0 < i < rest.len() implies key_lt(rest[i - 1], #[trigger] rest[i]) by {
            assert(rest[i] == keys[i]);
            assert(rest[i - 1] == keys[i - 1]);
        }
        lemma_neighbours_ascend(rest);
        assert forall|i: int, j: int| 0 <= i < j < keys.len() implies key_lt(
            #[trigger] keys[i],
            #[trigger] keys[j],
        ) by {
            if j < last {
                assert(rest[i] == keys[i]);
                assert(rest[j] == keys[j]);
            } else if i < last - 1 {
                assert(rest[i] == keys[i]);
                assert(rest[last - 1] == keys[last - 1]);
                assert(key_lt(keys[last - 1], keys[last]));
                lemma_key_lt_transitive(keys[i], keys[last - 1], keys[last]);
            } else {
                assert(key_lt(keys[last - 1], keys[last]));
            }
        }
    }
}

/// Looks `key` up among `entries`, whatever order they are in: a position
/// with the key, or a position at which to go on without it. Where the keys
/// ascend, this is what [`find_key`] finds.
pub fn seek_key(entries: &Vec<(String, Value)>, key: &str) -> (r: Result<usize, usize>)
    ensures
        match r {
            Ok(i) => i < entries@.len() && entries@[i as int].0@ == key@,
            Err(i) => i <= entries@.len(),
        },
        keys_ascend(entries_view(entries@)) ==> match r {
            Ok(i) => position_of(entries_view(entries@), key@) == Some(i as int),
            Err(i) => {
                &&& i == rank(entries_view(entries@), key@)
                &&& position_of(entries_view(entries@), key@) is None
                &&& forall|j: int|
                    0 <= j < i ==> key_lt((#[trigger] entries_view(entries@)[j]).0, key@)
                &&& forall|j: int|
                    i <= j < entries@.len() ==> key_lt(
                        key@,
                        (#[trigger] entries_view(entries@)[j]).0,
                    )
            },
        },
{
    let ghost model = entries_view(entries@);
    let mut low: usize = 0;
    let mut high: usize = entries.len();
    while low < high
        invariant
            model == entries_view(entries@),
            low <= high <= entries@.len(),
            keys_ascend(model) ==> forall|j: int|
                0 <= j < low ==> key_lt((#[trigger] model[j]).0, key@),
            keys_ascend(model) ==> forall|j: int|
                high <= j < model.len() ==> key_lt(key@, (#[trigger] model[j]).0),
        decreases high - low,
    {
        let middle: usize = low + (high - low) / 2;
        match key_order(entries[middle].0.as_str(), key) {
            KeyOrder::Same => {
                proof {
                    if keys_ascend(model) {
                        lemma_position_of_entry(model, middle as int);
                    }
                }
                return Ok(middle);
            },
            KeyOrder::Before => {
                proof {
                    if keys_ascend(model) {
                        assert forall|j: int| 0 <= j < middle + 1 implies key_lt(
                            (#[trigger] model[j]).0,
                            key@,
                        ) by {
                            if j < middle {
                                lemma_key_lt_transitive(model[j].0, model[middle as int].0, key@);
                            }
                        }
                    }
                }
                low = middle + 1;
            },
            KeyOrder::After => {
                proof {
                    if keys_ascend(model) {
                        assert forall|j: int| middle <= j < model.len() implies key_lt(
                            key@,
                            (#[trigger] model[j]).0,
                        ) by {
                            if middle < j {
                                lemma_key_lt_transitive(key@, model[middle as int].0, model[j].0);
                            }
                        }
                    }
                }
                high = middle;
            },
        }
    }
    proof {
        if keys_ascend(model) {
            lemma_rank_at_gap(model, key@, low as int);
        }
    }
    Err(low)
}

/// Looks `key` up among `entries`: the position of its entry, or else the
/// position at which an entry for it would keep the keys in order.
pub fn find_key(entries: &Vec<(String, Value)>, key: &str) -> (r: Result<usize, usize>)
    requires
        keys_ascend(entries_view(entries@)),
    ensures
        match r {
            Ok(i) => {
                &&& i < entries@.len()
                &&& entries@[i as int].0@ == key@
                &&& position_of(entries_view(entries@), key@) == Some(i as int)
            },
            Err(i) => {
                &&& i <= entries@.len()
                &&& i == rank(entries_view(entries@), key@)
                &&& position_of(entries_view(entries@), key@) is None
                &&& forall|j: int|
                    0 <= j < i ==> key_lt((#[trigger] entries_view(entries@)[j]).0, key@)
                &&& forall|j: int|
                    i <= j < entries@.len() ==> key_lt(
                        key@,
                        (#[trigger] entries_view(entries@)[j]).0,
                    )
            },
        },
{
    seek_key(entries, key)
}

} // verus!
