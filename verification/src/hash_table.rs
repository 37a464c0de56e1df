//! The interface that every table implements, and the slot type they share.

use vstd::prelude::*;

verus! {

/// Why an operation on a table did not succeed.
#[derive(Debug, Clone, Copy, PartialEq, Eq, Structural)]
pub enum HashTableError {
    /// The key is not in the table.
    NotFound,
    /// No slot is left for the pair.
    TableFull,
}

/// One slot: a key, and a value when the slot is in use.
#[derive(Debug, Clone, PartialEq)]
pub struct HashTableEntry<U> {
    pub key: u16,
    pub data: Option<Box<U>>,
}

impl<U> HashTableEntry<U> {
    /// The pair that the slot holds, or `None` for an empty slot.
    pub open spec fn pair(&self) -> Option<(u16, U)> {
        match self.data {
            Some(value) => Some((self.key, *value)),
            None => None,
        }
    }
}

impl<U> Default for HashTableEntry<U> {
    /// An empty slot.
    fn default() -> (entry: HashTableEntry<U>)
        ensures
            entry.key == 0,
            entry.data is None,
    {
        HashTableEntry { key: 0, data: None }
    }
}

/// What `lookup` owes for `key` on a table with the given contents.
pub open spec fn lookup_result<U>(contents: Map<u16, U>, key: u16) -> Result<U, HashTableError> {
    if contents.contains_key(key) {
        Ok(contents[key])
    } else {
        Err(HashTableError::NotFound)
    }
}

/// What every table owes for `insert`: on success the key is bound, to the
/// new value or to the one it already had, and no other key is touched; the
/// only failure is `TableFull`, for a key that was absent, and it changes
/// nothing.
pub open spec fn inserted<U>(
    before: Map<u16, U>,
    after: Map<u16, U>,
    key: u16,
    data: U,
    done: Result<(), HashTableError>,
) -> bool {
    match done {
        Ok(_) => {
            &&& after.contains_key(key)
            &&& after == before.insert(key, after[key])
            &&& after[key] == data || (before.contains_key(key) && after[key] == before[key])
        },
        Err(e) => {
            &&& e == HashTableError::TableFull
            &&& !before.contains_key(key)
            &&& after == before
        },
    }
}

/// What every table owes for `delete`: no other key is touched, a key that
/// was absent stays absent, and the only failure is `NotFound`, for a key
/// that was absent.
pub open spec fn deleted<U>(
    before: Map<u16, U>,
    after: Map<u16, U>,
    key: u16,
    done: Result<(), HashTableError>,
) -> bool {
    match done {
        Ok(_) => {
            &&& after.remove(key) == before.remove(key)
            &&& after.contains_key(key) ==> before.contains_key(key)
        },
        Err(e) => {
            &&& e == HashTableError::NotFound
            &&& !before.contains_key(key)
            &&& after == before
        },
    }
}

/// A map from keys to slot numbers.
pub trait HashFn {
    /// The number of slots that `hash` maps into.
    spec fn slot_count(&self) -> nat;

    /// The slot that `hash` gives for `key`.
    spec fn spec_hash(&self, key: u16) -> u16;

    /// The slot of `key`.
    fn hash(&self, key: u16) -> (slot: u16)
        requires
            self.slot_count() > 0,
        ensures
            slot == self.spec_hash(key),
            (slot as nat) < self.slot_count(),
    ;
}

/// A key/value table of fixed capacity.
pub trait HashTable<U: Copy> {
    /// The invariant that the operations keep.
    spec fn wf(&self) -> bool;

    /// The value that `lookup` finds for each key that it finds.
    spec fn contents(&self) -> Map<u16, U>;

    /// Stores the pair.
    fn insert(&mut self, key: u16, data: U) -> (done: Result<(), HashTableError>)
        requires
            old(self).wf(),
        ensures
            final(self).wf(),
            inserted(old(self).contents(), final(self).contents(), key, data, done),
    ;

    /// Removes the key's pair.
    fn delete(&mut self, key: u16) -> (done: Result<(), HashTableError>)
        requires
            old(self).wf(),
        ensures
            final(self).wf(),
            deleted(old(self).contents(), final(self).contents(), key, done),
    ;

    /// Returns a copy of the key's value.
    fn lookup(&self, key: u16) -> (found: Result<U, HashTableError>)
        requires
            self.wf(),
        ensures
            found == lookup_result(self.contents(), key),
    ;
}

/// A call that can change a table.
pub enum Change<U> {
    /// `insert` of this pair.
    Insert(u16, U),
    /// `delete` of this key.
    Delete(u16),
}

/// The contents `after` are what some outcome of the call leaves of the
/// contents `before`.
pub open spec fn changed<U>(before: Map<u16, U>, after: Map<u16, U>, change: Change<U>) -> bool {
    match change {
        Change::Insert(key, data) => exists|done: Result<(), HashTableError>|
            inserted(before, after, key, data, done),
        Change::Delete(key) => exists|done: Result<(), HashTableError>|
            deleted(before, after, key, done),
    }
}

/// `states` are the contents of a table that was built empty, before and
/// after each of the calls in `changes`.
pub open spec fn history<U>(states: Seq<Map<u16, U>>, changes: Seq<Change<U>>) -> bool {
    &&& states.len() == changes.len() + 1
    &&& states[0] == Map::<u16, U>::empty()
    &&& forall|i: int|
        0 <= i < changes.len() ==> changed(states[i], #[trigger] states[i + 1], changes[i])
}

/// A lookup right after a key was inserted with success finds the value that
/// was inserted, if the key was absent before or the table keeps the newest
/// value of a key.
pub proof fn lemma_lookup_after_insert<U>(
    before: Map<u16, U>,
    after: Map<u16, U>,
    key: u16,
    data: U,
)
    requires
        inserted(before, after, key, data, Ok(())),
        !before.contains_key(key) || after == before.insert(key, data),
    ensures
        lookup_result(after, key) == Ok::<U, HashTableError>(data),
{
}

/// An insert changes what a lookup finds for no key but its own.
pub proof fn lemma_insert_keeps_others<U>(
    before: Map<u16, U>,
    after: Map<u16, U>,
    key: u16,
    data: U,
    done: Result<(), HashTableError>,
    other: u16,
)
    requires
        inserted(before, after, key, data, done),
        other != key,
    ensures
        lookup_result(after, other) == lookup_result(before, other),
{
}

/// A delete changes what a lookup finds for no key but its own.
pub proof fn lemma_delete_keeps_others<U>(
    before: Map<u16, U>,
    after: Map<u16, U>,
    key: u16,
    done: Result<(), HashTableError>,
    other: u16,
)
    requires
        deleted(before, after, key, done),
        other != key,
    ensures
        lookup_result(after, other) == lookup_result(before, other),
{
    assert(after.remove(key).contains_key(other) == after.contains_key(other));
    assert(before.remove(key).contains_key(other) == before.contains_key(other));
    assert(after.remove(key)[other] == after[other]);
    assert(before.remove(key)[other] == before[other]);
}

/// A lookup of a key that was never inserted finds nothing, whatever else
/// was inserted and deleted since the table was built.
pub proof fn lemma_lookup_never_inserted<U>(
    states: Seq<Map<u16, U>>,
    changes: Seq<Change<U>>,
    key: u16,
)
    requires
        history(states, changes),
        forall|i: int|
            0 <= i < changes.len() ==> !(#[trigger] changes[i] matches Change::Insert(k, _) && k
                == key),
    ensures
        lookup_result(states.last(), key) == Err::<U, HashTableError>(HashTableError::NotFound),
{
    lemma_absent_through(states, changes, key, changes.len() as int);
}

/// After `n` calls none of which inserts the key, the key is absent.
proof fn lemma_absent_through<U>(
    states: Seq<Map<u16, U>>,
    changes: Seq<Change<U>>,
    key: u16,
    n: int,
)
    requires
        history(states, changes),
        0 <= n <= changes.len(),
        forall|i: int|
            0 <= i < n ==> !(#[trigger] changes[i] matches Change::Insert(k, _) && k == key),
    ensures
        !states[n].contains_key(key),
    decreases n,
{
    if n > 0 {
        lemma_absent_through(states, changes, key, n - 1);
        let before = states[n - 1];
        let after = states[n - 1 + 1];
        assert(changed(before, after, changes[n - 1]));
        match changes[n - 1] {
            Change::Insert(k, data) => {
                let done = choose|done: Result<(), HashTableError>|
                    inserted(before, after, k, data, done);
                assert(k != key);
            },
            Change::Delete(k) => {
                let done = choose|done: Result<(), HashTableError>|
                    deleted(before, after, k, done);
                if k != key {
                    assert(after.remove(k).contains_key(key) == after.contains_key(key));
                    assert(before.remove(k).contains_key(key) == before.contains_key(key));
                }
            },
        }
    }
}

} // verus!
