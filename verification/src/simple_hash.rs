//! Open addressing with linear probing. A deleted slot becomes a tombstone,
//! which probes pass over and `insert` may use again.

use crate::hash_table::{HashFn, HashTable, HashTableEntry, HashTableError};
use std::marker::PhantomData;
use vstd::prelude::*;

verus! {

/// The slot that a probe from `home` reaches after `step` steps, wrapping at
/// `capacity`.
pub open spec fn probe(home: int, step: int, capacity: int) -> int {
    if home + step < capacity {
        home + step
    } else {
        home + step - capacity
    }
}

/// The number of steps that a probe from `home` takes to reach `slot`.
pub open spec fn distance(home: int, slot: int, capacity: int) -> int {
    if slot >= home {
        slot - home
    } else {
        slot + capacity - home
    }
}

/// What a slot of the table holds.
pub enum Slot<U> {
    /// Nothing, and it never held a pair: a probe ends here.
    Empty,
    /// Nothing, since its pair was deleted: a probe passes over it.
    Deleted,
    /// A pair.
    Full(u16, U),
}

/// Slot `i` holds a pair with this key.
pub open spec fn slot_holds<U>(slots: Seq<Slot<U>>, i: int, key: u16) -> bool {
    0 <= i < slots.len() && slots[i] is Full && slots[i]->Full_0 == key
}

/// Some slot holds a pair with this key.
pub open spec fn key_held<U>(slots: Seq<Slot<U>>, key: u16) -> bool {
    exists|i: int| slot_holds(slots, i, key)
}

/// The pairs that the slots hold, as a map.
pub open spec fn slot_contents<U>(slots: Seq<Slot<U>>) -> Map<u16, U> {
    Map::new(
        |k: u16| key_held(slots, k),
        |k: u16| slots[choose|i: int| slot_holds(slots, i, k)]->Full_1,
    )
}

/// The first slot that holds no pair on the path from `home`, from step
/// `step` of the path on.
pub open spec fn first_free<U>(slots: Seq<Slot<U>>, home: int, step: int) -> Option<int>
    decreases slots.len() - step,
{
    if step < 0 || step >= slots.len() {
        None
    } else if slots[probe(home, step, slots.len() as int)] is Full {
        first_free(slots, home, step + 1)
    } else {
        Some(probe(home, step, slots.len() as int))
    }
}

/// The slots after `insert`, and what it returns: a key that is held is left
/// as it is; a new pair goes to the first slot on the key's path that holds
/// no pair, and is refused with `TableFull` when there is none.
pub open spec fn slots_after_insert<U>(slots: Seq<Slot<U>>, key: u16, data: U) -> (
    Seq<Slot<U>>,
    Result<(), HashTableError>,
) {
    if key_held(slots, key) {
        (slots, Ok(()))
    } else {
        match first_free(slots, key as int % slots.len() as int, 0) {
            Some(i) => (slots.update(i, Slot::Full(key, data)), Ok(())),
            None => (slots, Err(HashTableError::TableFull)),
        }
    }
}

/// The slots after `delete`: a slot that held the key is a tombstone, and
/// every other slot is as it was.
pub open spec fn slots_after_delete<U>(slots: Seq<Slot<U>>, key: u16) -> Seq<Slot<U>> {
    Seq::new(
        slots.len(),
        |i: int|
            if slot_holds(slots, i, key) {
                Slot::Deleted
            } else {
                slots[i]
            },
    )
}

/// The invariant of the slots: no key is held twice, and on the path from a
/// key's home to the slot that holds it no slot is `Empty`.
pub open spec fn slots_ok<U>(slots: Seq<Slot<U>>) -> bool {
    &&& forall|i: int, j: int|
        0 <= i < slots.len() && 0 <= j < slots.len() && (#[trigger] slots[i]) is Full && (
        #[trigger] slots[j]) is Full && slots[i]->Full_0 == slots[j]->Full_0 ==> i == j
    &&& forall|i: int, t: int|
        0 <= i < slots.len() && (#[trigger] slots[i]) is Full && 0 <= t < distance(
            slots[i]->Full_0 as int % slots.len() as int,
            i,
            slots.len() as int,
        ) ==> !((#[trigger] slots[probe(
            slots[i]->Full_0 as int % slots.len() as int,
            t,
            slots.len() as int,
        )]) is Empty)
}

/// What `insert` owes on a table with the given contents and capacity: a key
/// that is present is left as it is, a new key is stored while a slot is left,
/// and refused with `TableFull` when every slot holds a pair.
pub open spec fn linear_insert<U>(contents: Map<u16, U>, capacity: nat, key: u16, data: U) -> (
    Map<u16, U>,
    Result<(), HashTableError>,
) {
    if contents.contains_key(key) {
        (contents, Ok(()))
    } else if contents.len() < capacity {
        (contents.insert(key, data), Ok(()))
    } else {
        (contents, Err(HashTableError::TableFull))
    }
}

/// The contents of a table of the given capacity after the first `n` of the
/// pairs have been inserted in turn, starting from an empty table.
pub open spec fn filled<U>(capacity: nat, keys: Seq<u16>, values: Seq<U>, n: nat) -> Map<u16, U>
    decreases n,
{
    if n == 0 {
        Map::empty()
    } else {
        linear_insert(
            filled(capacity, keys, values, (n - 1) as nat),
            capacity,
            keys[n - 1],
            values[n - 1],
        ).0
    }
}

/// After `n` distinct keys have been inserted into an empty table with room
/// for them, the table holds exactly those keys.
pub proof fn lemma_filled<U>(capacity: nat, keys: Seq<u16>, values: Seq<U>, n: nat)
    requires
        keys.no_duplicates(),
        n <= keys.len(),
        n <= capacity,
    ensures
        filled(capacity, keys, values, n).dom().finite(),
        filled(capacity, keys, values, n).len() == n,
        forall|k: u16|
            filled(capacity, keys, values, n).contains_key(k) <==> exists|i: int|
                0 <= i < n && keys[i] == k,
    decreases n,
{
    if n > 0 {
        let before = filled(capacity, keys, values, (n - 1) as nat);
        lemma_filled(capacity, keys, values, (n - 1) as nat);
        assert(!before.contains_key(keys[n - 1]));
        assert(filled(capacity, keys, values, n) == before.insert(keys[n - 1], values[n - 1]));
        assert forall|k: u16|
            filled(capacity, keys, values, n).contains_key(k) <==> exists|i: int|
                0 <= i < n && keys[i] == k by {
            if before.contains_key(k) {
                let i = choose|i: int| 0 <= i < n - 1 && keys[i] == k;
                assert(0 <= i < n && keys[i] == k);
            }
        }
    }
}

/// Inserting as many distinct keys as the table has slots succeeds every
/// time, and inserting one more distinct key fails with `TableFull`.
pub proof fn lemma_fills_to_capacity<U>(capacity: nat, keys: Seq<u16>, values: Seq<U>)
    requires
        keys.no_duplicates(),
        keys.len() == capacity + 1,
    ensures
        forall|n: nat|
            n < capacity ==> (#[trigger] linear_insert(
                filled(capacity, keys, values, n),
                capacity,
                keys[n as int],
                values[n as int],
            )).1 is Ok,
        linear_insert(
            filled(capacity, keys, values, capacity),
            capacity,
            keys[capacity as int],
            values[capacity as int],
        ).1 == Err::<(), HashTableError>(HashTableError::TableFull),
{
    assert forall|n: nat| n < capacity implies (#[trigger] linear_insert(
        filled(capacity, keys, values, n),
        capacity,
        keys[n as int],
        values[n as int],
    )).1 is Ok by {
        lemma_filled(capacity, keys, values, n);
    }
    lemma_filled(capacity, keys, values, capacity);
}

/// A table of `capacity` slots, probed linearly from `key % capacity`.
pub struct BasicHash<U> {
    data: Vec<HashTableEntry<U>>,
    /// `deleted[i]` marks slot `i` as a tombstone.
    deleted: Vec<bool>,
    capacity: u16,
}

/// Where a probe for a key ended.
enum Probe {
    /// The slot that holds the key.
    Found(usize),
    /// The key is absent, and this is the first slot on its path that can take it.
    Vacant(usize),
    /// The key is absent, and every slot holds a pair.
    Full,
}

impl<U> BasicHash<U> {
    /// The number of slots.
    #[verifier::when_used_as_spec(spec_get_capacity)]
    pub fn get_capacity(&self) -> (capacity: u16)
        ensures
            capacity == self.get_capacity(),
    {
        self.capacity
    }

    /// The number of slots.
    pub closed spec fn spec_get_capacity(&self) -> u16 {
        self.capacity
    }

    /// The slot where the probe for `key` starts.
    spec fn home(&self, key: u16) -> int {
        (key % self.capacity) as int
    }

    /// Slot `i` holds a pair.
    spec fn live(&self, i: int) -> bool {
        self.data@[i].data is Some
    }

    /// Slot `i` holds a pair with this key.
    spec fn holds(&self, i: int, key: u16) -> bool {
        self.live(i) && self.data@[i].key == key
    }

    /// Slot `i` has never held a pair: a probe ends there.
    spec fn blank(&self, i: int) -> bool {
        !self.live(i) && !self.deleted@[i]
    }

    /// The slot `step` steps into the probe for `key` does not end the probe.
    spec fn passes(&self, key: u16, step: int) -> bool {
        !self.blank(probe(self.home(key), step, self.capacity as int))
    }

    /// The slot `step` steps into the probe for `key` does not hold `key`.
    spec fn misses(&self, key: u16, step: int) -> bool {
        !self.holds(probe(self.home(key), step, self.capacity as int), key)
    }

    /// The probe for `key` is not ended within its first `steps` steps.
    spec fn path_clear(&self, key: u16, steps: int) -> bool {
        forall|t: int| 0 <= t < steps ==> #[trigger] self.passes(key, t)
    }

    /// What slot `i` holds.
    spec fn slot(&self, i: int) -> Slot<U> {
        match self.data@[i].data {
            Some(value) => Slot::Full(self.data@[i].key, *value),
            None => if self.deleted@[i] {
                Slot::Deleted
            } else {
                Slot::Empty
            },
        }
    }

    /// The table, slot by slot.
    pub closed spec fn slots(&self) -> Seq<Slot<U>> {
        Seq::new(self.data@.len(), |i: int| self.slot(i))
    }

    /// The table's invariant: it has `capacity` slots, and they keep theirs.
    pub open spec fn well_formed(&self) -> bool {
        &&& self.sound()
        &&& self.get_capacity() > 0
        &&& self.slots().len() == self.get_capacity()
        &&& slots_ok(self.slots())
    }

    /// The invariant of the vectors behind the slots: each has `capacity`
    /// entries, a tombstone holds no pair, no key is held twice, and the probe
    /// for a key that is held reaches its slot.
    pub closed spec fn sound(&self) -> bool {
        &&& self.capacity > 0
        &&& self.data.len() == self.capacity
        &&& self.deleted.len() == self.capacity
        &&& forall|i: int| 0 <= i < self.capacity && #[trigger] self.live(i) ==> !self.deleted@[i]
        &&& forall|i: int, j: int|
            0 <= i < self.capacity && 0 <= j < self.capacity && #[trigger] self.live(i)
                && #[trigger] self.live(j) && self.data@[i].key == self.data@[j].key ==> i == j
        &&& forall|i: int|
            0 <= i < self.capacity && #[trigger] self.live(i) ==> self.path_clear(
                self.data@[i].key,
                distance(self.home(self.data@[i].key), i, self.capacity as int),
            )
    }

    /// Sound vectors make as many slots as the capacity, and slots that keep
    /// their invariant.
    proof fn lemma_slots(&self)
        requires
            self.sound(),
        ensures
            self.get_capacity() > 0,
            self.slots().len() == self.get_capacity(),
            slots_ok(self.slots()),
    {
        let slots = self.slots();
        assert forall|i: int, j: int|
            0 <= i < slots.len() && 0 <= j < slots.len() && (#[trigger] slots[i]) is Full && (
            #[trigger] slots[j]) is Full && slots[i]->Full_0 == slots[j]->Full_0 implies i
            == j by {
            assert(self.live(i) && self.live(j));
        }
        assert forall|i: int, t: int|
            0 <= i < slots.len() && (#[trigger] slots[i]) is Full && 0 <= t < distance(
                slots[i]->Full_0 as int % slots.len() as int,
                i,
                slots.len() as int,
            ) implies !((#[trigger] slots[probe(
                slots[i]->Full_0 as int % slots.len() as int,
                t,
                slots.len() as int,
            )]) is Empty) by {
            assert(self.live(i));
            assert(self.passes(self.data@[i].key, t));
        }
    }

    /// The number of pairs among the first `n` slots.
    spec fn live_count(&self, n: int) -> nat
        decreases n,
    {
        if n <= 0 {
            0
        } else {
            self.live_count(n - 1) + if self.live(n - 1) {
                1nat
            } else {
                0nat
            }
        }
    }

    /// The keys held among the first `n` slots.
    spec fn live_keys(&self, n: int) -> Set<u16> {
        Set::new(|k: u16| exists|i: int| 0 <= i < n && self.holds(i, k))
    }

    /// The keys held among the first `n` slots are as many as the pairs there.
    proof fn lemma_live_keys(&self, n: int)
        requires
            self.sound(),
            0 <= n <= self.capacity,
        ensures
            self.live_keys(n).finite(),
            self.live_keys(n).len() == self.live_count(n),
            self.live_count(n) <= n,
            self.live_count(n) == n <==> (forall|i: int| 0 <= i < n ==> self.live(i)),
        decreases n,
    {
        if n == 0 {
            assert(self.live_keys(0) =~= Set::empty());
        } else {
            self.lemma_live_keys(n - 1);
            if self.live(n - 1) {
                let k = self.data@[n - 1].key;
                assert(self.holds(n - 1, k));
                assert(self.live_keys(n) =~= self.live_keys(n - 1).insert(k));
                assert(!self.live_keys(n - 1).contains(k));
            } else {
                assert(self.live_keys(n) =~= self.live_keys(n - 1));
            }
        }
    }

    /// The contents are finite, and as many as the slots that hold a pair.
    proof fn lemma_len(&self)
        requires
            self.sound(),
        ensures
            self@.dom().finite(),
            self@.len() <= self.capacity,
            self@.len() == self.capacity <==> (forall|i: int|
                0 <= i < self.capacity ==> self.live(i)),
    {
        self.lemma_live_keys(self.capacity as int);
        assert forall|k: u16| self@.dom().contains(k) == self.live_keys(
            self.capacity as int,
        ).contains(k) by {
            self.lemma_view(k);
        }
        assert(self@.dom() =~= self.live_keys(self.capacity as int));
    }

    /// A key is in the contents exactly when some slot holds it, and then the
    /// contents give that slot's value.
    proof fn lemma_view(&self, key: u16)
        requires
            self.sound(),
        ensures
            self@.contains_key(key) <==> (exists|i: int|
                0 <= i < self.capacity && self.holds(i, key)),
            forall|i: int|
                0 <= i < self.capacity && self.holds(i, key) ==> self@.contains_key(key)
                    && self.data@[i].pair() == Some((key, self@[key])),
    {
        if self@.contains_key(key) {
            let j = choose|j: int| slot_holds(self.slots(), j, key);
            assert(self.holds(j, key));
        }
        assert forall|i: int|
            0 <= i < self.capacity && self.holds(i, key) implies self@.contains_key(key)
            && self.data@[i].pair() == Some((key, self@[key])) by {
            assert(slot_holds(self.slots(), i, key));
            let j = choose|j: int| slot_holds(self.slots(), j, key);
            assert(self.live(i) && self.live(j));
        }
    }

    /// The first slot that holds no pair, on a path that starts with `steps`
    /// slots that hold one.
    proof fn lemma_first_free(&self, home: int, steps: int, from: int)
        requires
            self.sound(),
            0 <= home < self.capacity,
            0 <= from <= steps < self.capacity,
            forall|t: int|
                0 <= t < steps ==> self.live(#[trigger] probe(home, t, self.capacity as int)),
            !self.live(probe(home, steps, self.capacity as int)),
        ensures
            first_free(self.slots(), home, from) == Some(probe(home, steps, self.capacity as int)),
        decreases steps - from,
    {
        if from < steps {
            self.lemma_first_free(home, steps, from + 1);
            assert(self.live(probe(home, from, self.capacity as int)));
        }
    }

    /// No slot holds no pair when all hold one.
    proof fn lemma_none_free(&self, home: int, from: int)
        requires
            self.sound(),
            0 <= home < self.capacity,
            0 <= from <= self.capacity,
            forall|i: int| 0 <= i < self.capacity ==> self.live(i),
        ensures
            first_free(self.slots(), home, from) is None,
        decreases self.capacity - from,
    {
        if from < self.capacity {
            self.lemma_none_free(home, from + 1);
            let i = probe(home, from, self.capacity as int);
            assert(self.live(i));
            assert(self.slots()[i] is Full);
        }
    }

    /// Follows the probe for `key` to the key, to the end of the probe, or
    /// once round the table.
    fn find(&self, key: u16) -> (end: Probe)
        requires
            self.sound(),
        ensures
            match end {
                Probe::Found(i) => i < self.capacity && self.holds(i as int, key),
                Probe::Vacant(i) => {
                    &&& i < self.capacity
                    &&& !self.live(i as int)
                    &&& !self@.contains_key(key)
                    &&& forall|t: int|
                        0 <= t < distance(self.home(key), i as int, self.capacity as int)
                            ==> self.live(
                            #[trigger] probe(self.home(key), t, self.capacity as int),
                        )
                },
                Probe::Full => {
                    &&& !self@.contains_key(key)
                    &&& forall|i: int| 0 <= i < self.capacity ==> self.live(i)
                },
            },
    {
        let capacity: usize = self.capacity as usize;
        let home: usize = self.hash(key) as usize;
        let mut slot: usize = home;
        let mut step: usize = 0;
        let mut free: Option<usize> = None;
        while step < capacity
            invariant
                self.sound(),
                capacity == self.capacity,
                home == self.home(key),
                0 <= step <= capacity,
                step < capacity ==> slot == probe(home as int, step as int, capacity as int),
                self.path_clear(key, step as int),
                forall|t: int| 0 <= t < step ==> #[trigger] self.misses(key, t),
                match free {
                    Some(i) => {
                        &&& i < capacity
                        &&& !self.live(i as int)
                        &&& distance(home as int, i as int, capacity as int) < step
                        &&& forall|t: int|
                            0 <= t < distance(home as int, i as int, capacity as int)
                                ==> self.live(#[trigger] probe(home as int, t, capacity as int))
                    },
                    None => forall|t: int|
                        0 <= t < step ==> self.live(
                            #[trigger] probe(home as int, t, capacity as int),
                        ),
                },
            decreases capacity - step,
        {
            if self.data[slot].data.is_some() {
                if self.data[slot].key == key {
                    return Probe::Found(slot);
                }
            } else if self.deleted[slot] {
                if free.is_none() {
                    free = Some(slot);
                }
            } else {
                proof {
                    self.lemma_absent_at_blank(key, step as int);
                }
                return match free {
                    Some(i) => Probe::Vacant(i),
                    None => Probe::Vacant(slot),
                };
            }
            assert(self.passes(key, step as int));
            assert(self.misses(key, step as int));
            step = step + 1;
            slot = if slot + 1 == capacity {
                0
            } else {
                slot + 1
            };
        }
        proof {
            self.lemma_absent_after_round(key);
        }
        match free {
            Some(i) => Probe::Vacant(i),
            None => {
                assert forall|i: int| 0 <= i < self.capacity implies self.live(i) by {
                    let t = distance(home as int, i, capacity as int);
                    assert(probe(home as int, t, capacity as int) == i);
                }
                Probe::Full
            },
        }
    }

    /// A key that the probe has missed for `step` steps, and whose probe
    /// ends at step `step`, is held nowhere.
    proof fn lemma_absent_at_blank(&self, key: u16, step: int)
        requires
            self.sound(),
            0 <= step < self.capacity,
            forall|t: int| 0 <= t < step ==> #[trigger] self.misses(key, t),
            !self.passes(key, step),
        ensures
            !self@.contains_key(key),
    {
        self.lemma_view(key);
        assert forall|i: int| 0 <= i < self.capacity implies !self.holds(i, key) by {
            if self.holds(i, key) {
                let t = distance(self.home(key), i, self.capacity as int);
                assert(probe(self.home(key), t, self.capacity as int) == i);
                assert(self.live(i));
                if t < step {
                    assert(self.misses(key, t));
                } else if t > step {
                    assert(self.passes(key, step));
                }
            }
        }
    }

    /// A key that the probe has missed once round the table is held nowhere.
    proof fn lemma_absent_after_round(&self, key: u16)
        requires
            self.sound(),
            forall|t: int| 0 <= t < self.capacity ==> #[trigger] self.misses(key, t),
        ensures
            !self@.contains_key(key),
    {
        self.lemma_view(key);
        assert forall|i: int| 0 <= i < self.capacity implies !self.holds(i, key) by {
            let t = distance(self.home(key), i, self.capacity as int);
            assert(probe(self.home(key), t, self.capacity as int) == i);
            assert(self.misses(key, t));
        }
    }
}

impl<U> BasicHash<U> {
    /// Filling a slot that holds no pair, on the path of a key that is absent
    /// and before the end of its probe, adds the pair and keeps the invariant.
    proof fn lemma_place(&self, after: &Self, i: int, key: u16, data: U)
        requires
            self.sound(),
            0 <= i < self.capacity,
            !self.live(i),
            !self@.contains_key(key),
            self.path_clear(key, distance(self.home(key), i, self.capacity as int)),
            after.capacity == self.capacity,
            after.data@.len() == self.data@.len(),
            after.data@[i].pair() == Some((key, data)),
            forall|j: int| 0 <= j < self.capacity && j != i ==> after.data@[j] == self.data@[j],
            after.deleted@ == self.deleted@.update(i, false),
        ensures
            after.sound(),
            after@ == self@.insert(key, data),
    {
        self.lemma_view(key);
        assert(after.live(i));
        assert forall|j: int| 0 <= j < self.capacity implies (after.blank(j) ==> self.blank(j)) && (
        j != i ==> after.live(j) == self.live(j)) by {}
        assert forall|j: int|
            0 <= j < after.capacity && #[trigger] after.live(j) implies after.path_clear(
            after.data@[j].key,
            distance(after.home(after.data@[j].key), j, after.capacity as int),
        ) by {
            let k = after.data@[j].key;
            let d = distance(after.home(k), j, after.capacity as int);
            if j != i {
                assert(self.live(j));
            }
            assert(self.path_clear(k, d));
            assert forall|t: int| 0 <= t < d implies #[trigger] after.passes(k, t) by {
                assert(self.passes(k, t));
            }
        }
        assert forall|a: int, b: int|
            0 <= a < after.capacity && 0 <= b < after.capacity && #[trigger] after.live(a)
                && #[trigger] after.live(b) && after.data@[a].key
                == after.data@[b].key implies a == b by {
            if a != i && b != i {
                assert(self.live(a) && self.live(b));
            } else if a != i {
                assert(self.holds(a, key));
            } else if b != i {
                assert(self.holds(b, key));
            }
        }
        assert(after.sound());
        assert forall|k: u16| #[trigger]
            after@.contains_key(k) == self@.insert(key, data).contains_key(k) && (
            after@.contains_key(k) ==> after@[k] == self@.insert(key, data)[k]) by {
            self.lemma_view(k);
            after.lemma_view(k);
            assert(after.holds(i, key));
            if k != key {
                if self@.contains_key(k) {
                    let j = choose|j: int| 0 <= j < self.capacity && self.holds(j, k);
                    assert(after.holds(j, k));
                }
                if after@.contains_key(k) {
                    let j = choose|j: int| 0 <= j < after.capacity && after.holds(j, k);
                    assert(self.holds(j, k));
                }
            }
        }
        assert(after@ =~= self@.insert(key, data));
    }

    /// Turning the slot that holds a key into a tombstone removes the key and
    /// keeps the invariant.
    proof fn lemma_clear(&self, after: &Self, i: int, key: u16)
        requires
            self.sound(),
            0 <= i < self.capacity,
            self.holds(i, key),
            after.capacity == self.capacity,
            after.data@.len() == self.data@.len(),
            after.data@[i].data is None,
            forall|j: int| 0 <= j < self.capacity && j != i ==> after.data@[j] == self.data@[j],
            after.deleted@ == self.deleted@.update(i, true),
        ensures
            after.sound(),
            after@ == self@.remove(key),
    {
        assert(!after.live(i));
        assert forall|j: int| 0 <= j < self.capacity implies (after.blank(j) ==> self.blank(j)) && (
        j != i ==> after.live(j) == self.live(j)) by {}
        assert forall|j: int|
            0 <= j < after.capacity && #[trigger] after.live(j) implies after.path_clear(
            after.data@[j].key,
            distance(after.home(after.data@[j].key), j, after.capacity as int),
        ) by {
            let k = after.data@[j].key;
            let d = distance(after.home(k), j, after.capacity as int);
            assert(self.live(j));
            assert(self.path_clear(k, d));
            assert forall|t: int| 0 <= t < d implies #[trigger] after.passes(k, t) by {
                assert(self.passes(k, t));
            }
        }
        assert forall|a: int, b: int|
            0 <= a < after.capacity && 0 <= b < after.capacity && #[trigger] after.live(a)
                && #[trigger] after.live(b) && after.data@[a].key
                == after.data@[b].key implies a == b by {
            assert(self.live(a) && self.live(b));
        }
        assert(after.sound());
        assert forall|k: u16| #[trigger]
            after@.contains_key(k) == self@.remove(key).contains_key(k) && (after@.contains_key(k)
                ==> after@[k] == self@.remove(key)[k]) by {
            self.lemma_view(k);
            after.lemma_view(k);
            if k != key {
                if self@.contains_key(k) {
                    let j = choose|j: int| 0 <= j < self.capacity && self.holds(j, k);
                    assert(after.holds(j, k));
                }
                if after@.contains_key(k) {
                    let j = choose|j: int| 0 <= j < after.capacity && after.holds(j, k);
                    assert(self.holds(j, k));
                }
            } else {
                if after@.contains_key(k) {
                    let j = choose|j: int| 0 <= j < after.capacity && after.holds(j, k);
                    assert(self.live(j) && self.live(i));
                }
            }
        }
        assert(after@ =~= self@.remove(key));
    }
}

impl<U> View for BasicHash<U> {
    type V = Map<u16, U>;

    /// The pairs that the table holds.
    open spec fn view(&self) -> Map<u16, U> {
        slot_contents(self.slots())
    }
}

impl<U> HashFn for BasicHash<U> {
    open spec fn slot_count(&self) -> nat {
        self.get_capacity() as nat
    }

    open spec fn spec_hash(&self, key: u16) -> u16 {
        (key % self.get_capacity()) as u16
    }

    /// The slot where the probe for `key` starts.
    fn hash(&self, key: u16) -> (slot: u16) {
        key % self.get_capacity()
    }
}

impl<U: Copy> HashTable<U> for BasicHash<U> {
    open spec fn wf(&self) -> bool {
        self.well_formed()
    }

    open spec fn contents(&self) -> Map<u16, U> {
        self@
    }

    /// Stores the pair in the first slot on the key's path that holds none,
    /// unless the key is already there.
    fn insert(&mut self, key: u16, data: U) -> (done: Result<(), HashTableError>)
        ensures
            final(self).get_capacity() == old(self).get_capacity(),
            (final(self).slots(), done) == slots_after_insert(old(self).slots(), key, data),
            (final(self)@, done) == linear_insert(
                old(self)@,
                old(self).get_capacity() as nat,
                key,
                data,
            ),
    {
        proof {
            self.lemma_len();
        }
        match self.find(key) {
            Probe::Found(i) => {
                proof {
                    self.lemma_view(key);
                    assert(self@ =~= self@.insert(key, self@[key]));
                }
                Ok(())
            },
            Probe::Vacant(i) => {
                let ghost before = *self;
                self.data[i] = HashTableEntry { key, data: Some(Box::new(data)) };
                self.deleted[i] = false;
                proof {
                    let home = before.home(key);
                    let steps = distance(home, i as int, self.capacity as int);
                    assert(probe(home, steps, self.capacity as int) == i);
                    before.lemma_first_free(home, steps, 0);
                    before.lemma_place(self, i as int, key, data);
                    self.lemma_slots();
                    assert(self.slots() =~= before.slots().update(i as int, Slot::Full(key, data)));
                }
                Ok(())
            },
            Probe::Full => {
                proof {
                    self.lemma_none_free(self.home(key), 0);
                }
                Err(HashTableError::TableFull)
            },
        }
    }

    /// Turns the slot that holds the key into a tombstone.
    fn delete(&mut self, key: u16) -> (done: Result<(), HashTableError>)
        ensures
            final(self).get_capacity() == old(self).get_capacity(),
            final(self).slots() == slots_after_delete(old(self).slots(), key),
            final(self)@ == old(self)@.remove(key),
            done is Ok <==> old(self)@.contains_key(key),
    {
        match self.find(key) {
            Probe::Found(i) => {
                let ghost before = *self;
                self.data[i] = HashTableEntry::default();
                self.deleted[i] = true;
                proof {
                    before.lemma_view(key);
                    before.lemma_clear(self, i as int, key);
                    self.lemma_slots();
                    assert(self@.remove(key) =~= self@);
                    assert forall|j: int| 0 <= j < self.capacity implies self.slots()[j]
                        == slots_after_delete(before.slots(), key)[j] by {
                        if j != i && slot_holds(before.slots(), j, key) {
                            assert(before.live(j) && before.live(i as int));
                        }
                    }
                    assert(self.slots() =~= slots_after_delete(before.slots(), key));
                }
                Ok(())
            },
            _ => {
                assert(self@.remove(key) =~= self@);
                assert(self.slots() =~= slots_after_delete(self.slots(), key));
                Err(HashTableError::NotFound)
            },
        }
    }

    /// Follows the key's path to the key or to the end of the probe.
    fn lookup(&self, key: u16) -> (found: Result<U, HashTableError>) {
        match self.find(key) {
            Probe::Found(i) => {
                proof {
                    self.lemma_view(key);
                }
                match &self.data[i].data {
                    Some(value) => Ok(**value),
                    None => Err(HashTableError::NotFound),
                }
            },
            _ => Err(HashTableError::NotFound),
        }
    }
}

/// Builds a `BasicHash` of a chosen capacity.
pub struct BasicHashBuilder<U> {
    _phantom_u: PhantomData<U>,
    capacity: u16,
}

impl<U> BasicHashBuilder<U> {
    /// The capacity that `build` will give the table.
    pub closed spec fn capacity(&self) -> u16 {
        self.capacity
    }

    /// A builder for a table of capacity 0; `with_capacity` sets another.
    pub fn new() -> (builder: BasicHashBuilder<U>)
        ensures
            builder.capacity() == 0,
    {
        BasicHashBuilder { _phantom_u: PhantomData, capacity: 0 }
    }

    /// Sets the capacity.
    pub fn with_capacity(self, capacity: u16) -> (builder: BasicHashBuilder<U>)
        ensures
            builder.capacity() == capacity,
    {
        let mut builder = self;
        builder.capacity = capacity;
        builder
    }

    /// An empty table of the chosen capacity.
    pub fn build(self) -> (table: BasicHash<U>)
        requires
            self.capacity() > 0,
        ensures
            table.well_formed(),
            table.get_capacity() == self.capacity(),
            table.slots() == Seq::new(self.capacity() as nat, |i: int| Slot::<U>::Empty),
            table@ == Map::<u16, U>::empty(),
    {
        let mut hash = BasicHash::<U> {
            data: Vec::with_capacity(self.capacity as usize),
            deleted: Vec::with_capacity(self.capacity as usize),
            capacity: self.capacity,
        };
        let mut i: u16 = 0;
        while i < self.capacity
            invariant
                i <= self.capacity,
                hash.capacity == self.capacity,
                hash.data.len() == i,
                hash.deleted.len() == i,
                forall|j: int| 0 <= j < i ==> hash.data@[j].data is None,
                forall|j: int| 0 <= j < i ==> !hash.deleted@[j],
            decreases self.capacity - i,
        {
            hash.data.push(HashTableEntry::default());
            hash.deleted.push(false);
            i = i + 1;
        }
        assert(hash.slots() =~= Seq::new(self.capacity as nat, |i: int| Slot::<U>::Empty));
        proof {
            hash.lemma_slots();
        }
        assert(hash@ =~= Map::<u16, U>::empty());
        hash
    }
}

} // verus!
