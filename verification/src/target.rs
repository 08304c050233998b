//! A record as something that an expression can address: the record itself,
//! and beside it metadata and secrets, each reached on its own.
use vstd::prelude::*;
use vstd::string::*;
use crate::event::LogEvent;
use crate::key_order::same_text;
use crate::lookup::{Lookup, LookupBuf};
use crate::model::{insertion, removal, resolve, EntryError};
use crate::value::{EntriesView, Value, ValueView};

verus! {

/// Secret texts, each under a name.
#[derive(Debug)]
pub struct Secrets {
    entries: Vec<(String, String)>,
}

/// No name comes twice.
pub open spec fn names_differ(entries: Seq<(String, String)>) -> bool {
    forall|i: int, j: int|
        0 <= i < j < entries.len() ==> (#[trigger] entries[i]).0@ != (#[trigger] entries[j]).0@
}

/// Whether one of the entries is under `name`.
pub open spec fn holds_name(entries: Seq<(String, String)>, name: Seq<char>) -> bool {
    exists|i: int| 0 <= i < entries.len() && (#[trigger] entries[i]).0@ == name
}

/// The secrets that the entries hold, by name.
pub open spec fn secrets_of(entries: Seq<(String, String)>) -> Map<Seq<char>, Seq<char>> {
    Map::new(
        |name: Seq<char>| holds_name(entries, name),
        |name: Seq<char>|
            entries[choose|i: int| 0 <= i < entries.len() && (#[trigger] entries[i]).0@ == name].1@,
    )
}

/// Where no name comes twice, the secret under the name of an entry is
/// that of the entry.
proof fn lemma_secret_of_entry(entries: Seq<(String, String)>, i: int)
    requires
        names_differ(entries),
        0 <= i < entries.len(),
    ensures
        secrets_of(entries).contains_key(entries[i].0@),
        secrets_of(entries)[entries[i].0@] == entries[i].1@,
{
    let name = entries[i].0@;
    let found = choose|j: int| 0 <= j < entries.len() && (#[trigger] entries[j]).0@ == name;
    assert(found == i);
}

impl View for Secrets {
    type V = Map<Seq<char>, Seq<char>>;

    closed spec fn view(&self) -> Map<Seq<char>, Seq<char>> {
        secrets_of(self.entries@)
    }
}

impl Secrets {
    #[verifier::type_invariant]
    spec fn one_of_each(self) -> bool {
        names_differ(self.entries@)
    }

    /// No secrets.
    pub fn new() -> (secrets: Secrets)
        ensures
            secrets@ == Map::<Seq<char>, Seq<char>>::empty(),
    {
        let secrets = Secrets { entries: Vec::new() };
        assert(secrets@ =~= Map::<Seq<char>, Seq<char>>::empty());
        secrets
    }

    /// Where the entry under `name` stands, if there is one.
    fn find(&self, name: &str) -> (r: Option<usize>)
        ensures
            match r {
                Some(i) => i < self.entries@.len() && self.entries@[i as int].0@ == name@,
                None => !holds_name(self.entries@, name@),
            },
    {
        let mut i: usize = 0;
        while i < self.entries.len()
            invariant
                i <= self.entries@.len(),
                forall|j: int| 0 <= j < i ==> (#[trigger] self.entries@[j]).0@ != name@,
            decreases self.entries@.len() - i,
        {
            if same_text(self.entries[i].0.as_str(), name) {
                return Some(i);
            }
            i += 1;
        }
        None
    }

    /// The secret under `name`, if there is one.
    pub fn get_secret(&self, name: &str) -> (r: Option<&str>)
        ensures
            match r {
                Some(secret) => self@.contains_key(name@) && self@[name@] == secret@,
                None => !self@.contains_key(name@),
            },
    {
        proof {
            use_type_invariant(self);
        }
        match self.find(name) {
            Some(i) => {
                proof {
                    lemma_secret_of_entry(self.entries@, i as int);
                }
                Some(self.entries[i].1.as_str())
            },
            None => None,
        }
    }

    /// Puts `secret` under `name`, in place of whatever was there.
    pub fn insert_secret(&mut self, name: &str, secret: &str)
        ensures
            final(self)@ == old(self)@.insert(name@, secret@),
    {
        proof {
            use_type_invariant(&*self);
        }
        let found = self.find(name);
        let mut entries: Vec<(String, String)> = Vec::new();
        std::mem::swap(&mut entries, &mut self.entries);
        let ghost before = entries@;
        match found {
            Some(i) => {
                entries.set(i, (String::from_str(name), String::from_str(secret)));
            },
            None => {
                entries.push((String::from_str(name), String::from_str(secret)));
            },
        }
        proof {
            let after = entries@;
            let at = match found {
                Some(i) => i as int,
                None => before.len() as int,
            };
            assert(names_differ(after)) by {
                assert forall|i: int, j: int| 0 <= i < j < after.len() implies (
                #[trigger] after[i]).0@ != (#[trigger] after[j]).0@ by {
                    if i != at && i < before.len() {
                        assert(after[i] == before[i]);
                    }
                    if j != at && j < before.len() {
                        assert(after[j] == before[j]);
                    }
                }
            }
            lemma_secret_of_entry(after, at);
            assert forall|other: Seq<char>| other != name@ implies (holds_name(after, other)
                == holds_name(before, other)) && (holds_name(before, other) ==> secrets_of(
                after,
            )[other] == secrets_of(before)[other]) by {
                if holds_name(before, other) {
                    let k = choose|k: int| 0 <= k < before.len() && (#[trigger] before[k]).0@ == other;
                    assert(after[k] == before[k]);
                    lemma_secret_of_entry(before, k);
                    lemma_secret_of_entry(after, k);
                }
                if holds_name(after, other) {
                    let k = choose|k: int| 0 <= k < after.len() && (#[trigger] after[k]).0@ == other;
                    assert(after[k] == before[k]);
                }
            }
            assert(secrets_of(after) =~= secrets_of(before).insert(name@, secret@));
        }
        self.entries = entries;
    }

    /// Takes the secret under `name` away, if there is one.
    pub fn remove_secret(&mut self, name: &str)
        ensures
            final(self)@ == old(self)@.remove(name@),
    {
        proof {
            use_type_invariant(&*self);
        }
        let found = self.find(name);
        let mut entries: Vec<(String, String)> = Vec::new();
        std::mem::swap(&mut entries, &mut self.entries);
        let ghost before = entries@;
        match found {
            Some(i) => {
                let _ = entries.remove(i);
                proof {
                    let after = entries@;
                    assert forall|a: int, b: int| 0 <= a < b < after.len() implies (
                    #[trigger] after[a]).0@ != (#[trigger] after[b]).0@ by {
                        let a0 = if a < i { a } else { a + 1 };
                        let b0 = if b < i { b } else { b + 1 };
                        assert(after[a] == before[a0]);
                        assert(after[b] == before[b0]);
                    }
                    assert(!holds_name(after, name@)) by {
                        if holds_name(after, name@) {
                            let k = choose|k: int|
                                0 <= k < after.len() && (#[trigger] after[k]).0@ == name@;
                            let k0 = if k < i { k } else { k + 1 };
                            assert(after[k] == before[k0]);
                        }
                    }
                    assert forall|other: Seq<char>| other != name@ implies (holds_name(
                        after,
                        other,
                    ) == holds_name(before, other)) && (holds_name(before, other) ==> secrets_of(
                        after,
                    )[other] == secrets_of(before)[other]) by {
                        if holds_name(before, other) {
                            let k = choose|k: int|
                                0 <= k < before.len() && (#[trigger] before[k]).0@ == other;
                            let k1 = if k < i { k } else { k - 1 };
                            assert(after[k1] == before[k]);
                            lemma_secret_of_entry(before, k);
                            lemma_secret_of_entry(after, k1);
                        }
                        if holds_name(after, other) {
                            let k = choose|k: int|
                                0 <= k < after.len() && (#[trigger] after[k]).0@ == other;
                            let k0 = if k < i { k } else { k + 1 };
                            assert(after[k] == before[k0]);
                        }
                    }
                    assert(secrets_of(after) =~= secrets_of(before).remove(name@));
                }
            },
            None => {
                proof {
                    assert(secrets_of(before) =~= secrets_of(before).remove(name@));
                }
            },
        }
        self.entries = entries;
    }
}

/// What an expression may do with what it works on: read, write and take
/// away by path in a record and, apart from it, in its metadata, and keep
/// secrets by name.
pub trait Target {
    /// The top-level entries of the record.
    spec fn record(&self) -> EntriesView;

    /// The top-level entries of the metadata.
    spec fn metadata(&self) -> EntriesView;

    /// The secrets, by name.
    spec fn secrets(&self) -> Map<Seq<char>, Seq<char>>;

    /// The record and the metadata keep the keys of their objects in
    /// order.
    spec fn well_kept(&self) -> bool;

    /// The value at `path` in the record.
    fn target_get(&self, path: &Lookup<'_>) -> (r: Option<&Value>)
        requires
            self.well_kept(),
        ensures
            match r {
                Some(v) => resolve(self.record(), path@) == Some(v@),
                None => resolve(self.record(), path@) is None,
            },
    ;

    /// Writes `value` at `path` in the record, as [`LogEvent::insert`]
    /// does.
    fn target_insert(&mut self, path: LookupBuf, value: Value) -> (r: Result<(), EntryError>)
        requires
            old(self).well_kept(),
            value.wf(),
            path@[0] is Field,
        ensures
            final(self).well_kept(),
            final(self).metadata() == old(self).metadata(),
            final(self).secrets() == old(self).secrets(),
            match r {
                Ok(_) => insertion(old(self).record(), path@, value@) == Ok::<
                    EntriesView,
                    EntryError,
                >(final(self).record()),
                Err(e) => {
                    &&& insertion(old(self).record(), path@, value@) == Err::<
                        EntriesView,
                        EntryError,
                    >(e)
                    &&& final(self).record() == old(self).record()
                },
            },
    ;

    /// Takes the value at `path` out of the record, as [`LogEvent::remove`]
    /// does.
    fn target_remove(&mut self, path: &Lookup<'_>, compact: bool) -> (r: Option<Value>)
        requires
            old(self).well_kept(),
        ensures
            final(self).well_kept(),
            final(self).metadata() == old(self).metadata(),
            final(self).secrets() == old(self).secrets(),
            match r {
                Some(taken) => resolve(old(self).record(), path@) == Some(taken@),
                None => resolve(old(self).record(), path@) is None,
            },
            ValueView::Object(final(self).record()) == removal(
                ValueView::Object(old(self).record()),
                path@,
                compact,
            ),
    ;

    /// The value at `path` in the metadata.
    fn get_metadata(&self, path: &Lookup<'_>) -> (r: Option<&Value>)
        requires
            self.well_kept(),
        ensures
            match r {
                Some(v) => resolve(self.metadata(), path@) == Some(v@),
                None => resolve(self.metadata(), path@) is None,
            },
    ;

    /// Writes `value` at `path` in the metadata.
    fn set_metadata(&mut self, path: LookupBuf, value: Value) -> (r: Result<(), EntryError>)
        requires
            old(self).well_kept(),
            value.wf(),
            path@[0] is Field,
        ensures
            final(self).well_kept(),
            final(self).record() == old(self).record(),
            final(self).secrets() == old(self).secrets(),
            match r {
                Ok(_) => insertion(old(self).metadata(), path@, value@) == Ok::<
                    EntriesView,
                    EntryError,
                >(final(self).metadata()),
                Err(e) => {
                    &&& insertion(old(self).metadata(), path@, value@) == Err::<
                        EntriesView,
                        EntryError,
                    >(e)
                    &&& final(self).metadata() == old(self).metadata()
                },
            },
    ;

    /// Takes the value at `path` out of the metadata.
    fn remove_metadata(&mut self, path: &Lookup<'_>) -> (r: Option<Value>)
        requires
            old(self).well_kept(),
        ensures
            final(self).well_kept(),
            final(self).record() == old(self).record(),
            final(self).secrets() == old(self).secrets(),
            match r {
                Some(taken) => resolve(old(self).metadata(), path@) == Some(taken@),
                None => resolve(old(self).metadata(), path@) is None,
            },
            ValueView::Object(final(self).metadata()) == removal(
                ValueView::Object(old(self).metadata()),
                path@,
                false,
            ),
    ;

    /// The secret under `name`.
    fn get_secret(&self, name: &str) -> (r: Option<&str>)
        ensures
            match r {
                Some(secret) => self.secrets().contains_key(name@) && self.secrets()[name@]
                    == secret@,
                None => !self.secrets().contains_key(name@),
            },
    ;

    /// Puts `secret` under `name`.
    fn insert_secret(&mut self, name: &str, secret: &str)
        ensures
            final(self).secrets() == old(self).secrets().insert(name@, secret@),
            final(self).record() == old(self).record(),
            final(self).metadata() == old(self).metadata(),
            final(self).well_kept() == old(self).well_kept(),
    ;

    /// Takes the secret under `name` away.
    fn remove_secret(&mut self, name: &str)
        ensures
            final(self).secrets() == old(self).secrets().remove(name@),
            final(self).record() == old(self).record(),
            final(self).metadata() == old(self).metadata(),
            final(self).well_kept() == old(self).well_kept(),
    ;
}

/// A record with its metadata and its secrets.
#[derive(Debug)]
pub struct TargetValue {
    pub value: LogEvent,
    pub metadata: LogEvent,
    pub secrets: Secrets,
}

impl Target for TargetValue {
    open spec fn record(&self) -> EntriesView {
        self.value@
    }

    open spec fn metadata(&self) -> EntriesView {
        self.metadata@
    }

    open spec fn secrets(&self) -> Map<Seq<char>, Seq<char>> {
        self.secrets@
    }

    open spec fn well_kept(&self) -> bool {
        self.value.wf() && self.metadata.wf()
    }

    fn target_get(&self, path: &Lookup<'_>) -> (r: Option<&Value>) {
        self.value.get(path)
    }

    fn target_insert(&mut self, path: LookupBuf, value: Value) -> (r: Result<(), EntryError>) {
        match self.value.insert(path, value) {
            Ok(_) => Ok(()),
            Err(e) => Err(e),
        }
    }

    fn target_remove(&mut self, path: &Lookup<'_>, compact: bool) -> (r: Option<Value>) {
        self.value.remove(path, compact)
    }

    fn get_metadata(&self, path: &Lookup<'_>) -> (r: Option<&Value>) {
        self.metadata.get(path)
    }

    fn set_metadata(&mut self, path: LookupBuf, value: Value) -> (r: Result<(), EntryError>) {
        match self.metadata.insert(path, value) {
            Ok(_) => Ok(()),
            Err(e) => Err(e),
        }
    }

    fn remove_metadata(&mut self, path: &Lookup<'_>) -> (r: Option<Value>) {
        self.metadata.remove(path, false)
    }

    fn get_secret(&self, name: &str) -> (r: Option<&str>) {
        self.secrets.get_secret(name)
    }

    fn insert_secret(&mut self, name: &str, secret: &str) {
        self.secrets.insert_secret(name, secret);
    }

    fn remove_secret(&mut self, name: &str) {
        self.secrets.remove_secret(name);
    }
}

} // verus!
