//! Cuckoo hashing: two tables, each with a hash function of its own. A pair
//! lives in the slot that one of the two functions gives for its key, so a
//! lookup reads two slots at most.

use crate::hash_table::{HashFn, HashTable, HashTableEntry, HashTableError};
use rand::Rng;
use std::marker::PhantomData;
use vstd::multiset::Multiset;
use vstd::prelude::*;

verus! {

/// The stash size of a builder that was given none.
pub const DEFAULT_STASH_SIZE: u16 = 8;

/// How many times one insertion may evict from the primary table.
pub const MAX_SECONDARY_HASH_ITERATIONS: u16 = 8;

/// How many pairs of hash parameters `rehash` and `insert` draw before they
/// give up.
pub const MAX_REHASH_ATTEMPTS: u16 = 128;

/// The slot of `key` in a table of `capacity` slots whose hash parameter is
/// `random`.
pub open spec fn slot_index(key: u16, random: u16, capacity: u16) -> int {
    ((key & random) % capacity) as int
}

/// Slot `i` holds a pair with this key.
pub open spec fn holds<U>(slots: Seq<Option<(u16, U)>>, i: int, key: u16) -> bool {
    0 <= i < slots.len() && slots[i] is Some && slots[i]->Some_0.0 == key
}

/// The invariant of a pair of tables: both have `capacity` slots, every pair
/// sits in the slot that its table's hash function gives for its key, and no
/// key is in both tables.
pub open spec fn tables_ok<U>(
    primary: Seq<Option<(u16, U)>>,
    secondary: Seq<Option<(u16, U)>>,
    primary_random: u16,
    secondary_random: u16,
    capacity: u16,
) -> bool {
    &&& capacity > 0
    &&& primary.len() == capacity
    &&& secondary.len() == capacity
    &&& forall|i: int|
        0 <= i < capacity && (#[trigger] primary[i]) is Some ==> slot_index(
            primary[i]->Some_0.0,
            primary_random,
            capacity,
        ) == i
    &&& forall|i: int|
        0 <= i < capacity && (#[trigger] secondary[i]) is Some ==> slot_index(
            secondary[i]->Some_0.0,
            secondary_random,
            capacity,
        ) == i
    &&& forall|i: int|
        0 <= i < capacity && (#[trigger] primary[i]) is Some ==> !holds(
            secondary,
            slot_index(primary[i]->Some_0.0, secondary_random, capacity),
            primary[i]->Some_0.0,
        )
}

/// The pairs that two tables hold, as a map.
pub open spec fn table_contents<U>(
    primary: Seq<Option<(u16, U)>>,
    secondary: Seq<Option<(u16, U)>>,
    primary_random: u16,
    secondary_random: u16,
    capacity: u16,
) -> Map<u16, U> {
    Map::new(
        |k: u16|
            holds(primary, slot_index(k, primary_random, capacity), k) || holds(
                secondary,
                slot_index(k, secondary_random, capacity),
                k,
            ),
        |k: u16|
            if holds(primary, slot_index(k, primary_random, capacity), k) {
                primary[slot_index(k, primary_random, capacity)]->Some_0.1
            } else {
                secondary[slot_index(k, secondary_random, capacity)]->Some_0.1
            },
    )
}

/// The tables after the pair has been placed by eviction, or `None` when
/// `budget` rounds do not end in an empty slot. A round puts the pair in hand
/// into its primary slot; the pair that was there goes to its secondary slot;
/// the pair that was there is in hand for the next round.
pub open spec fn place<U>(
    primary: Seq<Option<(u16, U)>>,
    secondary: Seq<Option<(u16, U)>>,
    primary_random: u16,
    secondary_random: u16,
    capacity: u16,
    key: u16,
    data: U,
    budget: nat,
) -> Option<(Seq<Option<(u16, U)>>, Seq<Option<(u16, U)>>)>
    decreases budget,
{
    let i = slot_index(key, primary_random, capacity);
    if budget == 0 {
        None
    } else {
        match primary[i] {
            None => Some((primary.update(i, Some((key, data))), secondary)),
            Some(evicted) => {
                let j = slot_index(evicted.0, secondary_random, capacity);
                match secondary[j] {
                    None => Some(
                        (
                            primary.update(i, Some((key, data))),
                            secondary.update(j, Some(evicted)),
                        ),
                    ),
                    Some(next) => place(
                        primary.update(i, Some((key, data))),
                        secondary.update(j, Some(evicted)),
                        primary_random,
                        secondary_random,
                        capacity,
                        next.0,
                        next.1,
                        (budget - 1) as nat,
                    ),
                }
            },
        }
    }
}

/// Putting a pair whose key is absent into its empty primary slot adds the
/// pair and keeps the invariant.
pub proof fn lemma_fill_primary<U>(
    primary: Seq<Option<(u16, U)>>,
    secondary: Seq<Option<(u16, U)>>,
    primary_random: u16,
    secondary_random: u16,
    capacity: u16,
    key: u16,
    data: U,
)
    requires
        tables_ok(primary, secondary, primary_random, secondary_random, capacity),
        !table_contents(
            primary,
            secondary,
            primary_random,
            secondary_random,
            capacity,
        ).contains_key(key),
        primary[slot_index(key, primary_random, capacity)] is None,
    ensures
        tables_ok(
            primary.update(slot_index(key, primary_random, capacity), Some((key, data))),
            secondary,
            primary_random,
            secondary_random,
            capacity,
        ),
        table_contents(
            primary.update(slot_index(key, primary_random, capacity), Some((key, data))),
            secondary,
            primary_random,
            secondary_random,
            capacity,
        ) == table_contents(primary, secondary, primary_random, secondary_random, capacity).insert(
            key,
            data,
        ),
{
    let i = slot_index(key, primary_random, capacity);
    let filled = primary.update(i, Some((key, data)));
    assert forall|a: int| 0 <= a < capacity && (#[trigger] filled[a]) is Some implies slot_index(
        filled[a]->Some_0.0,
        primary_random,
        capacity,
    ) == a && !holds(
        secondary,
        slot_index(filled[a]->Some_0.0, secondary_random, capacity),
        filled[a]->Some_0.0,
    ) by {
        if a != i {
            assert(primary[a] is Some);
        }
    }
    assert(table_contents(filled, secondary, primary_random, secondary_random, capacity)
        =~= table_contents(primary, secondary, primary_random, secondary_random, capacity).insert(
        key,
        data,
    ));
}

/// One round of eviction that ends with a pair in hand: the tables keep the
/// invariant, hold the new pair, and no longer hold the pair in hand.
pub proof fn lemma_evict<U>(
    primary: Seq<Option<(u16, U)>>,
    secondary: Seq<Option<(u16, U)>>,
    primary_random: u16,
    secondary_random: u16,
    capacity: u16,
    key: u16,
    data: U,
)
    requires
        tables_ok(primary, secondary, primary_random, secondary_random, capacity),
        !table_contents(
            primary,
            secondary,
            primary_random,
            secondary_random,
            capacity,
        ).contains_key(key),
        primary[slot_index(key, primary_random, capacity)] is Some,
    ensures
        ({
            let before = table_contents(
                primary,
                secondary,
                primary_random,
                secondary_random,
                capacity,
            );
            let i = slot_index(key, primary_random, capacity);
            let evicted = primary[i]->Some_0;
            let j = slot_index(evicted.0, secondary_random, capacity);
            let moved = primary.update(i, Some((key, data)));
            let settled = secondary.update(j, Some(evicted));
            let after = table_contents(
                moved,
                settled,
                primary_random,
                secondary_random,
                capacity,
            );
            &&& tables_ok(moved, settled, primary_random, secondary_random, capacity)
            &&& secondary[j] is None ==> after == before.insert(key, data)
            &&& secondary[j] matches Some(next) ==> {
                &&& before.contains_key(next.0)
                &&& before[next.0] == next.1
                &&& next.0 != key
                &&& !after.contains_key(next.0)
                &&& after == before.insert(key, data).remove(next.0)
            }
        }),
{
    let before = table_contents(primary, secondary, primary_random, secondary_random, capacity);
    let i = slot_index(key, primary_random, capacity);
    let evicted = primary[i]->Some_0;
    let j = slot_index(evicted.0, secondary_random, capacity);
    let moved = primary.update(i, Some((key, data)));
    let settled = secondary.update(j, Some(evicted));
    let after = table_contents(moved, settled, primary_random, secondary_random, capacity);
    assert(holds(primary, i, evicted.0));
    assert forall|a: int| 0 <= a < capacity && (#[trigger] moved[a]) is Some implies slot_index(
        moved[a]->Some_0.0,
        primary_random,
        capacity,
    ) == a && !holds(
        settled,
        slot_index(moved[a]->Some_0.0, secondary_random, capacity),
        moved[a]->Some_0.0,
    ) by {
        if a != i {
            assert(primary[a] is Some);
        }
    }
    assert forall|a: int| 0 <= a < capacity && (#[trigger] settled[a]) is Some implies slot_index(
        settled[a]->Some_0.0,
        secondary_random,
        capacity,
    ) == a by {
        if a != j {
            assert(secondary[a] is Some);
        }
    }
    match secondary[j] {
        None => {
            assert(after =~= before.insert(key, data));
        },
        Some(next) => {
            assert(holds(secondary, j, next.0));
            assert(after =~= before.insert(key, data).remove(next.0)) by {
                assert forall|k: u16| #[trigger]
                    after.contains_key(k) == before.insert(key, data).remove(next.0).contains_key(
                        k,
                    ) by {
                    let a = slot_index(k, primary_random, capacity);
                    if a != i && holds(primary, a, k) {
                        assert(primary[a] is Some);
                    }
                }
            }
        },
    }
}

/// The slots with slot `i` emptied if it holds `key`.
pub open spec fn cleared<U>(slots: Seq<Option<(u16, U)>>, i: int, key: u16) -> Seq<
    Option<(u16, U)>,
> {
    if holds(slots, i, key) {
        slots.update(i, None)
    } else {
        slots
    }
}

/// Emptying the slots that hold a key removes the key and keeps the
/// invariant.
pub proof fn lemma_cleared<U>(
    primary: Seq<Option<(u16, U)>>,
    secondary: Seq<Option<(u16, U)>>,
    primary_random: u16,
    secondary_random: u16,
    capacity: u16,
    key: u16,
)
    requires
        tables_ok(primary, secondary, primary_random, secondary_random, capacity),
    ensures
        tables_ok(
            cleared(primary, slot_index(key, primary_random, capacity), key),
            cleared(secondary, slot_index(key, secondary_random, capacity), key),
            primary_random,
            secondary_random,
            capacity,
        ),
        table_contents(
            cleared(primary, slot_index(key, primary_random, capacity), key),
            cleared(secondary, slot_index(key, secondary_random, capacity), key),
            primary_random,
            secondary_random,
            capacity,
        ) == table_contents(primary, secondary, primary_random, secondary_random, capacity).remove(
            key,
        ),
{
    let emptied = cleared(primary, slot_index(key, primary_random, capacity), key);
    let swept = cleared(secondary, slot_index(key, secondary_random, capacity), key);
    assert forall|a: int| 0 <= a < capacity && (#[trigger] emptied[a]) is Some implies slot_index(
        emptied[a]->Some_0.0,
        primary_random,
        capacity,
    ) == a && !holds(
        swept,
        slot_index(emptied[a]->Some_0.0, secondary_random, capacity),
        emptied[a]->Some_0.0,
    ) by {
        assert(primary[a] is Some);
    }
    assert forall|a: int| 0 <= a < capacity && (#[trigger] swept[a]) is Some implies slot_index(
        swept[a]->Some_0.0,
        secondary_random,
        capacity,
    ) == a by {
        assert(secondary[a] is Some);
    }
    assert(table_contents(emptied, swept, primary_random, secondary_random, capacity)
        =~= table_contents(primary, secondary, primary_random, secondary_random, capacity).remove(
        key,
    ));
}

/// The pairs in the slots, in the order of the slots.
pub open spec fn pairs_of<U>(slots: Seq<Option<(u16, U)>>) -> Seq<(u16, U)>
    decreases slots.len(),
{
    if slots.len() == 0 {
        Seq::empty()
    } else {
        match slots.last() {
            Some(pair) => pairs_of(slots.drop_last()).push(pair),
            None => pairs_of(slots.drop_last()),
        }
    }
}

/// `capacity` empty slots.
pub open spec fn no_pairs<U>(capacity: u16) -> Seq<Option<(u16, U)>> {
    Seq::new(capacity as nat, |i: int| None::<(u16, U)>)
}

/// The tables that hold the pairs after each has been placed in turn in
/// tables that were empty, or `None` when one of them cannot be placed.
pub open spec fn place_all<U>(
    pairs: Seq<(u16, U)>,
    primary_random: u16,
    secondary_random: u16,
    capacity: u16,
) -> Option<(Seq<Option<(u16, U)>>, Seq<Option<(u16, U)>>)>
    decreases pairs.len(),
{
    if pairs.len() == 0 {
        Some((no_pairs(capacity), no_pairs(capacity)))
    } else {
        match place_all(pairs.drop_last(), primary_random, secondary_random, capacity) {
            Some((primary, secondary)) => place(
                primary,
                secondary,
                primary_random,
                secondary_random,
                capacity,
                pairs.last().0,
                pairs.last().1,
                MAX_SECONDARY_HASH_ITERATIONS as nat,
            ),
            None => None,
        }
    }
}

/// Empty slots hold no pairs.
pub proof fn lemma_no_pairs<U>(capacity: u16)
    ensures
        pairs_of(no_pairs::<U>(capacity)) == Seq::<(u16, U)>::empty(),
    decreases capacity,
{
    if capacity > 0 {
        lemma_no_pairs::<U>((capacity - 1) as u16);
        assert(no_pairs::<U>(capacity).drop_last() =~= no_pairs::<U>((capacity - 1) as u16));
    }
}

/// The pairs of the slots are those of the first `n` slots, then those of
/// the rest.
pub proof fn lemma_pairs_split<U>(slots: Seq<Option<(u16, U)>>, n: int)
    requires
        0 <= n <= slots.len(),
    ensures
        pairs_of(slots) == pairs_of(slots.take(n)) + pairs_of(slots.skip(n)),
    decreases slots.len(),
{
    if n == slots.len() {
        assert(slots.take(n) =~= slots);
        assert(pairs_of(slots.skip(n)) =~= Seq::empty());
        assert(pairs_of(slots) =~= pairs_of(slots.take(n)) + pairs_of(slots.skip(n)));
    } else {
        lemma_pairs_split(slots.drop_last(), n);
        assert(slots.drop_last().take(n) =~= slots.take(n));
        assert(slots.skip(n).drop_last() =~= slots.drop_last().skip(n));
        assert(slots.skip(n).last() == slots.last());
        assert(pairs_of(slots) =~= pairs_of(slots.take(n)) + pairs_of(slots.skip(n)));
    }
}

/// The pairs of one slot more are those of the slots before it, and its own.
pub proof fn lemma_pairs_next<U>(slots: Seq<Option<(u16, U)>>, n: int)
    requires
        0 <= n < slots.len(),
    ensures
        pairs_of(slots.take(n + 1)) == match slots[n] {
            Some(pair) => pairs_of(slots.take(n)).push(pair),
            None => pairs_of(slots.take(n)),
        },
{
    assert(slots.take(n + 1).drop_last() =~= slots.take(n));
}

/// Pairs that cannot all be placed cannot be placed with more pairs behind
/// them.
pub proof fn lemma_place_all_prefix<U>(
    pairs: Seq<(u16, U)>,
    more: Seq<(u16, U)>,
    primary_random: u16,
    secondary_random: u16,
    capacity: u16,
)
    requires
        place_all(pairs, primary_random, secondary_random, capacity) is None,
    ensures
        place_all(pairs + more, primary_random, secondary_random, capacity) is None,
    decreases more.len(),
{
    if more.len() == 0 {
        assert(pairs + more =~= pairs);
    } else {
        lemma_place_all_prefix(
            pairs,
            more.drop_last(),
            primary_random,
            secondary_random,
            capacity,
        );
        assert((pairs + more).drop_last() =~= pairs + more.drop_last());
    }
}

/// Among the first `n` slots of a table in which every pair sits in the slot
/// of its key, a pair occurs once if the slot of its key is among them and
/// holds it, and not at all otherwise.
pub proof fn lemma_pairs_count<U>(
    slots: Seq<Option<(u16, U)>>,
    random: u16,
    capacity: u16,
    n: int,
    pair: (u16, U),
)
    requires
        capacity > 0,
        slots.len() == capacity,
        0 <= n <= capacity,
        forall|i: int|
            0 <= i < capacity && (#[trigger] slots[i]) is Some ==> slot_index(
                slots[i]->Some_0.0,
                random,
                capacity,
            ) == i,
    ensures
        pairs_of(slots.take(n)).to_multiset().count(pair) == if slot_index(pair.0, random, capacity)
            < n && slots[slot_index(pair.0, random, capacity)] == Some(pair) {
            1nat
        } else {
            0nat
        },
    decreases n,
{
    if n == 0 {
        assert(slots.take(0) =~= Seq::empty());
        assert(pairs_of(slots.take(0)).to_multiset() =~= Multiset::empty()) by {
            pairs_of(slots.take(0)).to_multiset_ensures();
        }
    } else {
        lemma_pairs_count(slots, random, capacity, n - 1, pair);
        lemma_pairs_next(slots, n - 1);
        match slots[n - 1] {
            Some(held) => {
                vstd::seq_lib::to_multiset_build(pairs_of(slots.take(n - 1)), held);
            },
            None => {},
        }
    }
}

/// A cuckoo table of `hash_capacity` slots in each of its two tables.
pub struct CuckooHash<U> where U: Copy {
    primary: Vec<HashTableEntry<U>>,
    secondary: Vec<HashTableEntry<U>>,
    stash: Vec<HashTableEntry<U>>,
    hash_capacity: u16,
    stash_capacity: u16,
    primary_random: u16,
    secondary_random: u16,
}

/// A number drawn from the thread's generator: `rand::thread_rng()` and
/// `Rng::gen::<u16>()`. Nothing is claimed of the number. The generator
/// panics when the operating system gives it no seed.
#[verifier::external_body]
fn random_u16() -> (drawn: u16) {
    rand::thread_rng().gen::<u16>()
}

/// A vector of `len` empty slots.
fn empty_slots<U>(len: u16) -> (slots: Vec<HashTableEntry<U>>)
    ensures
        slots.len() == len,
        forall|i: int| 0 <= i < len ==> slots[i].data is None,
{
    let mut slots: Vec<HashTableEntry<U>> = Vec::with_capacity(len as usize);
    let mut i: u16 = 0;
    while i < len
        invariant
            i <= len,
            slots.len() == i,
            forall|j: int| 0 <= j < i ==> slots[j].data is None,
        decreases len - i,
    {
        slots.push(HashTableEntry::default());
        i = i + 1;
    }
    slots
}

impl<U: Copy> CuckooHash<U> {
    /// The number of slots in each of the two tables.
    #[verifier::when_used_as_spec(spec_get_hash_capacity)]
    pub fn get_hash_capacity(&self) -> (capacity: u16)
        ensures
            capacity == self.get_hash_capacity(),
    {
        self.hash_capacity
    }

    /// The number of slots in each of the two tables.
    pub closed spec fn spec_get_hash_capacity(&self) -> u16 {
        self.hash_capacity
    }

    /// The number of slots in the stash.
    #[verifier::when_used_as_spec(spec_get_stash_capacity)]
    pub fn get_stash_capacity(&self) -> (capacity: u16)
        ensures
            capacity == self.get_stash_capacity(),
    {
        self.stash_capacity
    }

    /// The number of slots in the stash.
    pub closed spec fn spec_get_stash_capacity(&self) -> u16 {
        self.stash_capacity
    }

    /// The hash parameter of the primary table.
    #[verifier::when_used_as_spec(spec_get_primary_random)]
    pub fn get_primary_random(&self) -> (random: u16)
        ensures
            random == self.get_primary_random(),
    {
        self.primary_random
    }

    /// The hash parameter of the primary table.
    pub closed spec fn spec_get_primary_random(&self) -> u16 {
        self.primary_random
    }

    /// The hash parameter of the secondary table.
    #[verifier::when_used_as_spec(spec_get_secondary_random)]
    pub fn get_secondary_random(&self) -> (random: u16)
        ensures
            random == self.get_secondary_random(),
    {
        self.secondary_random
    }

    /// The hash parameter of the secondary table.
    pub closed spec fn spec_get_secondary_random(&self) -> u16 {
        self.secondary_random
    }

    /// The primary table, slot by slot.
    pub closed spec fn primary_slots(&self) -> Seq<Option<(u16, U)>> {
        self.primary@.map_values(|e: HashTableEntry<U>| e.pair())
    }

    /// The secondary table, slot by slot.
    pub closed spec fn secondary_slots(&self) -> Seq<Option<(u16, U)>> {
        self.secondary@.map_values(|e: HashTableEntry<U>| e.pair())
    }

    /// The number of slots in the stash.
    pub closed spec fn stash_len(&self) -> nat {
        self.stash@.len()
    }

    /// The table's invariant: that of its two tables, and a stash of the
    /// size that was asked for.
    pub open spec fn well_formed(&self) -> bool {
        &&& tables_ok(
            self.primary_slots(),
            self.secondary_slots(),
            self.get_primary_random(),
            self.get_secondary_random(),
            self.get_hash_capacity(),
        )
        &&& self.stash_len() == self.get_stash_capacity()
    }

    /// Everything but the two tables' slots and the hash parameters is equal.
    pub open spec fn same_shape(&self, other: &Self) -> bool {
        &&& self.get_hash_capacity() == other.get_hash_capacity()
        &&& self.get_stash_capacity() == other.get_stash_capacity()
        &&& self.stash_len() == other.stash_len()
    }

    /// The two tables' slots and the hash parameters are equal.
    pub open spec fn same_tables(&self, other: &Self) -> bool {
        &&& self.primary_slots() == other.primary_slots()
        &&& self.secondary_slots() == other.secondary_slots()
        &&& self.get_primary_random() == other.get_primary_random()
        &&& self.get_secondary_random() == other.get_secondary_random()
    }

    /// What `place` gives for this table, a pair and the full budget of
    /// evictions.
    pub open spec fn placed(&self, key: u16, data: U) -> Option<
        (Seq<Option<(u16, U)>>, Seq<Option<(u16, U)>>),
    > {
        place(
            self.primary_slots(),
            self.secondary_slots(),
            self.get_primary_random(),
            self.get_secondary_random(),
            self.get_hash_capacity(),
            key,
            data,
            MAX_SECONDARY_HASH_ITERATIONS as nat,
        )
    }

    /// Draws a new hash parameter for the primary table. The pairs stay where
    /// they are, so only an empty table is sure to keep its invariant.
    pub fn update_primary_random(&mut self)
        ensures
            final(self).same_shape(old(self)),
            final(self).primary_slots() == old(self).primary_slots(),
            final(self).secondary_slots() == old(self).secondary_slots(),
            final(self).get_secondary_random() == old(self).get_secondary_random(),
            old(self).well_formed() && old(self)@ == Map::<u16, U>::empty()
                ==> final(self).well_formed() && final(self)@ == Map::<u16, U>::empty(),
    {
        let drawn: u16 = random_u16();
        self.set_primary_random(drawn);
    }

    /// Draws a new hash parameter for the secondary table. The pairs stay
    /// where they are, so only an empty table is sure to keep its invariant.
    pub fn update_secondary_random(&mut self)
        ensures
            final(self).same_shape(old(self)),
            final(self).primary_slots() == old(self).primary_slots(),
            final(self).secondary_slots() == old(self).secondary_slots(),
            final(self).get_primary_random() == old(self).get_primary_random(),
            old(self).well_formed() && old(self)@ == Map::<u16, U>::empty()
                ==> final(self).well_formed() && final(self)@ == Map::<u16, U>::empty(),
    {
        let drawn: u16 = random_u16();
        self.set_secondary_random(drawn);
    }

    /// Makes `random` the hash parameter of the primary table. The pairs stay
    /// where they are, so only an empty table is sure to keep its invariant.
    pub fn set_primary_random(&mut self, random: u16)
        ensures
            final(self).same_shape(old(self)),
            final(self).primary_slots() == old(self).primary_slots(),
            final(self).secondary_slots() == old(self).secondary_slots(),
            final(self).get_primary_random() == random,
            final(self).get_secondary_random() == old(self).get_secondary_random(),
            old(self).well_formed() && old(self)@ == Map::<u16, U>::empty()
                ==> final(self).well_formed() && final(self)@ == Map::<u16, U>::empty(),
    {
        proof {
            self.lemma_empty();
        }
        self.primary_random = random;
        proof {
            if old(self).well_formed() && old(self)@ == Map::<u16, U>::empty() {
                assert(self@ =~= Map::<u16, U>::empty());
            }
        }
    }

    /// Makes `random` the hash parameter of the secondary table. The pairs
    /// stay where they are, so only an empty table is sure to keep its
    /// invariant.
    pub fn set_secondary_random(&mut self, random: u16)
        ensures
            final(self).same_shape(old(self)),
            final(self).primary_slots() == old(self).primary_slots(),
            final(self).secondary_slots() == old(self).secondary_slots(),
            final(self).get_primary_random() == old(self).get_primary_random(),
            final(self).get_secondary_random() == random,
            old(self).well_formed() && old(self)@ == Map::<u16, U>::empty()
                ==> final(self).well_formed() && final(self)@ == Map::<u16, U>::empty(),
    {
        proof {
            self.lemma_empty();
        }
        self.secondary_random = random;
        proof {
            if old(self).well_formed() && old(self)@ == Map::<u16, U>::empty() {
                assert(self@ =~= Map::<u16, U>::empty());
            }
        }
    }

    /// A well-formed table without contents has only empty slots.
    proof fn lemma_empty(&self)
        ensures
            self.well_formed() && self@ == Map::<u16, U>::empty() ==> (forall|i: int|
                0 <= i < self.hash_capacity ==> self.primary_slots()[i] is None
                    && self.secondary_slots()[i] is None),
    {
        if self.well_formed() && self@ == Map::<u16, U>::empty() {
            assert forall|i: int|
                0 <= i < self.hash_capacity implies self.primary_slots()[i] is None
                && self.secondary_slots()[i] is None by {
                if self.primary_slots()[i] is Some {
                    let k = self.primary_slots()[i]->Some_0.0;
                    assert(holds(self.primary_slots(), i, k));
                    assert(self@.contains_key(k));
                }
                if self.secondary_slots()[i] is Some {
                    let k = self.secondary_slots()[i]->Some_0.0;
                    assert(holds(self.secondary_slots(), i, k));
                    assert(self@.contains_key(k));
                }
            }
        }
    }

    /// Appends `hash_capacity` empty slots to each of the two tables.
    pub fn initialize_hash_tables(&mut self)
        ensures
            final(self).same_shape(old(self)),
            final(self).get_primary_random() == old(self).get_primary_random(),
            final(self).get_secondary_random() == old(self).get_secondary_random(),
            final(self).primary_slots() == old(self).primary_slots() + Seq::new(
                old(self).get_hash_capacity() as nat,
                |i: int| None::<(u16, U)>,
            ),
            final(self).secondary_slots() == old(self).secondary_slots() + Seq::new(
                old(self).get_hash_capacity() as nat,
                |i: int| None::<(u16, U)>,
            ),
    {
        let mut i: u16 = 0;
        while i < self.hash_capacity
            invariant
                i <= self.hash_capacity,
                self.same_shape(old(self)),
                self.primary_random == old(self).primary_random,
                self.secondary_random == old(self).secondary_random,
                self.primary_slots() == old(self).primary_slots() + Seq::new(
                    i as nat,
                    |i: int| None::<(u16, U)>,
                ),
                self.secondary_slots() == old(self).secondary_slots() + Seq::new(
                    i as nat,
                    |i: int| None::<(u16, U)>,
                ),
            decreases self.hash_capacity - i,
        {
            let ghost before = *self;
            self.primary.push(HashTableEntry::default());
            self.secondary.push(HashTableEntry::default());
            i = i + 1;
            assert(self.primary_slots() =~= before.primary_slots().push(None));
            assert(self.secondary_slots() =~= before.secondary_slots().push(None));
            assert(self.primary_slots() =~= old(self).primary_slots() + Seq::new(
                i as nat,
                |i: int| None::<(u16, U)>,
            ));
            assert(self.secondary_slots() =~= old(self).secondary_slots() + Seq::new(
                i as nat,
                |i: int| None::<(u16, U)>,
            ));
        }
    }

    /// The slot of `key` in the secondary table.
    pub fn secondary_hash(&self, key: u16) -> (slot: u16)
        requires
            self.get_hash_capacity() > 0,
        ensures
            slot == slot_index(key, self.get_secondary_random(), self.get_hash_capacity()),
            slot < self.get_hash_capacity(),
    {
        (key & self.get_secondary_random()) % self.get_hash_capacity()
    }
}

impl<U: Copy> View for CuckooHash<U> {
    type V = Map<u16, U>;

    /// The pairs that the table holds.
    open spec fn view(&self) -> Map<u16, U> {
        table_contents(
            self.primary_slots(),
            self.secondary_slots(),
            self.get_primary_random(),
            self.get_secondary_random(),
            self.get_hash_capacity(),
        )
    }
}

impl<U: Copy> HashFn for CuckooHash<U> {
    open spec fn slot_count(&self) -> nat {
        self.get_hash_capacity() as nat
    }

    open spec fn spec_hash(&self, key: u16) -> u16 {
        ((key & self.get_primary_random()) % self.get_hash_capacity()) as u16
    }

    /// The slot of `key` in the primary table.
    fn hash(&self, key: u16) -> (slot: u16) {
        (key & self.get_primary_random()) % self.get_hash_capacity()
    }
}

impl<U: Copy> CuckooHash<U> {
    /// The pairs of the primary table, then those of the secondary table.
    pub open spec fn pairs(&self) -> Seq<(u16, U)> {
        pairs_of(self.primary_slots()) + pairs_of(self.secondary_slots())
    }

    /// The pairs of the table as a multiset: each as often as a slot holds it.
    pub open spec fn entries(&self) -> Multiset<(u16, U)> {
        self.pairs().to_multiset()
    }

    /// A well-formed table holds each pair of its contents once, and no other
    /// pair.
    pub proof fn lemma_entries(&self, pair: (u16, U))
        requires
            self.well_formed(),
        ensures
            self.entries().count(pair) == if self@.contains_pair(pair.0, pair.1) {
                1nat
            } else {
                0nat
            },
    {
        let capacity = self.get_hash_capacity();
        lemma_pairs_count(
            self.primary_slots(),
            self.get_primary_random(),
            capacity,
            capacity as int,
            pair,
        );
        lemma_pairs_count(
            self.secondary_slots(),
            self.get_secondary_random(),
            capacity,
            capacity as int,
            pair,
        );
        assert(self.primary_slots().take(capacity as int) =~= self.primary_slots());
        assert(self.secondary_slots().take(capacity as int) =~= self.secondary_slots());
        vstd::seq_lib::lemma_multiset_commutative(
            pairs_of(self.primary_slots()),
            pairs_of(self.secondary_slots()),
        );
        let i = slot_index(pair.0, self.get_primary_random(), capacity);
        if self.primary_slots()[i] == Some(pair) {
            assert(holds(self.primary_slots(), i, pair.0));
        }
    }

    /// Well-formed tables with the same contents hold the same pairs, each
    /// as often.
    pub proof fn lemma_same_entries(&self, other: &Self)
        requires
            self.well_formed(),
            other.well_formed(),
            self@ == other@,
        ensures
            self.entries() == other.entries(),
    {
        assert forall|pair: (u16, U)| self.entries().count(pair) == other.entries().count(pair) by {
            self.lemma_entries(pair);
            other.lemma_entries(pair);
        }
        assert(self.entries() =~= other.entries());
    }

    /// An empty table with the given capacities and hash parameters.
    fn with_parameters(
        hash_capacity: u16,
        stash_capacity: u16,
        primary_random: u16,
        secondary_random: u16,
    ) -> (table: CuckooHash<U>)
        requires
            hash_capacity > 0,
        ensures
            table.well_formed(),
            table.get_hash_capacity() == hash_capacity,
            table.get_stash_capacity() == stash_capacity,
            table.get_primary_random() == primary_random,
            table.get_secondary_random() == secondary_random,
            table.primary_slots() == no_pairs::<U>(hash_capacity),
            table.secondary_slots() == no_pairs::<U>(hash_capacity),
            table.pairs() == Seq::<(u16, U)>::empty(),
            table@ == Map::<u16, U>::empty(),
    {
        proof {
            lemma_no_pairs::<U>(hash_capacity);
        }
        let mut table = CuckooHash::<U> {
            primary: Vec::with_capacity(hash_capacity as usize),
            secondary: Vec::with_capacity(hash_capacity as usize),
            stash: empty_slots(stash_capacity),
            hash_capacity,
            stash_capacity,
            primary_random,
            secondary_random,
        };
        assert(table.primary_slots() =~= Seq::empty());
        assert(table.secondary_slots() =~= Seq::empty());
        table.initialize_hash_tables();
        assert(table.primary_slots() =~= no_pairs::<U>(hash_capacity));
        assert(table.secondary_slots() =~= no_pairs::<U>(hash_capacity));
        assert(table@ =~= Map::<u16, U>::empty());
        table
    }

    /// Places a pair whose key is absent, evicting for at most `budget`
    /// rounds. When the rounds do not end in an empty slot, every eviction is
    /// undone.
    fn displace(&mut self, key: u16, data: U, budget: u16) -> (placed: bool)
        requires
            old(self).well_formed(),
            !old(self)@.contains_key(key),
        ensures
            final(self).well_formed(),
            final(self).same_shape(old(self)),
            final(self).get_primary_random() == old(self).get_primary_random(),
            final(self).get_secondary_random() == old(self).get_secondary_random(),
            placed ==> place(
                old(self).primary_slots(),
                old(self).secondary_slots(),
                old(self).get_primary_random(),
                old(self).get_secondary_random(),
                old(self).get_hash_capacity(),
                key,
                data,
                budget as nat,
            ) == Some((final(self).primary_slots(), final(self).secondary_slots())),
            placed ==> final(self)@ == old(self)@.insert(key, data),
            !placed ==> place(
                old(self).primary_slots(),
                old(self).secondary_slots(),
                old(self).get_primary_random(),
                old(self).get_secondary_random(),
                old(self).get_hash_capacity(),
                key,
                data,
                budget as nat,
            ) is None,
            !placed ==> final(self).same_tables(old(self)),
        decreases budget,
    {
        if budget == 0 {
            return false;
        }
        let ghost primary = self.primary_slots();
        let ghost secondary = self.secondary_slots();
        let h1: usize = self.hash(key) as usize;
        let evicted_key: u16 = self.primary[h1].key;
        let evicted: Option<U> = match &self.primary[h1].data {
            Some(value) => Some(**value),
            None => None,
        };
        self.primary[h1] = HashTableEntry { key, data: Some(Box::new(data)) };
        assert(self.primary_slots() =~= primary.update(h1 as int, Some((key, data))));
        assert(self.secondary_slots() =~= secondary);
        let evicted_data: U = match evicted {
            Some(value) => value,
            None => {
                proof {
                    lemma_fill_primary(
                        primary,
                        secondary,
                        self.primary_random,
                        self.secondary_random,
                        self.hash_capacity,
                        key,
                        data,
                    );
                }
                return true;
            },
        };
        proof {
            lemma_evict(
                primary,
                secondary,
                self.primary_random,
                self.secondary_random,
                self.hash_capacity,
                key,
                data,
            );
        }
        let ghost moved = self.primary_slots();
        let h2: usize = self.secondary_hash(evicted_key) as usize;
        let next_key: u16 = self.secondary[h2].key;
        let next: Option<U> = match &self.secondary[h2].data {
            Some(value) => Some(**value),
            None => None,
        };
        self.secondary[h2] = HashTableEntry {
            key: evicted_key,
            data: Some(Box::new(evicted_data)),
        };
        assert(self.primary_slots() =~= moved);
        assert(self.secondary_slots() =~= secondary.update(
            h2 as int,
            Some((evicted_key, evicted_data)),
        ));
        let next_data: U = match next {
            Some(value) => value,
            None => {
                return true;
            },
        };
        assert(primary[h1 as int] == Some((evicted_key, evicted_data)));
        assert(secondary[h2 as int] == Some((next_key, next_data)));
        if self.displace(next_key, next_data, budget - 1) {
            assert(self@ =~= old(self)@.insert(key, data));
            true
        } else {
            let ghost failed = *self;
            self.secondary[h2] = HashTableEntry { key: next_key, data: Some(Box::new(next_data)) };
            self.primary[h1] = HashTableEntry {
                key: evicted_key,
                data: Some(Box::new(evicted_data)),
            };
            assert(self.primary_slots() =~= failed.primary_slots().update(
                h1 as int,
                Some((evicted_key, evicted_data)),
            ));
            assert(self.secondary_slots() =~= failed.secondary_slots().update(
                h2 as int,
                Some((next_key, next_data)),
            ));
            assert(self.primary_slots() =~= primary);
            assert(self.secondary_slots() =~= secondary);
            false
        }
    }

    /// Stores the pair as `insert` does, but never rehashes: when the pair
    /// cannot be placed within the budget of evictions, the table is left as
    /// it was.
    pub fn try_insert(&mut self, key: u16, data: U) -> (done: Result<(), HashTableError>)
        requires
            old(self).well_formed(),
        ensures
            final(self).well_formed(),
            final(self).same_shape(old(self)),
            final(self).get_primary_random() == old(self).get_primary_random(),
            final(self).get_secondary_random() == old(self).get_secondary_random(),
            old(self)@.contains_key(key) ==> done is Ok && final(self).same_tables(old(self)),
            !old(self)@.contains_key(key) ==> match old(self).placed(key, data) {
                Some((primary, secondary)) => {
                    &&& done is Ok
                    &&& final(self).primary_slots() == primary
                    &&& final(self).secondary_slots() == secondary
                    &&& final(self)@ == old(self)@.insert(key, data)
                },
                None => {
                    &&& done == Err::<(), HashTableError>(HashTableError::TableFull)
                    &&& final(self).same_tables(old(self))
                },
            },
    {
        if self.lookup(key).is_ok() {
            return Ok(());
        }
        if self.displace(key, data, MAX_SECONDARY_HASH_ITERATIONS) {
            Ok(())
        } else {
            Err(HashTableError::TableFull)
        }
    }

    /// The table rehashed with the given hash parameters: every pair of this
    /// table, placed in turn in empty tables under them. `None` when one of
    /// them cannot be placed.
    fn rehashed(&self, primary_random: u16, secondary_random: u16) -> (rehashed: Option<
        CuckooHash<U>,
    >)
        requires
            self.well_formed(),
        ensures
            match rehashed {
                Some(fresh) => {
                    &&& fresh.well_formed()
                    &&& fresh.same_shape(self)
                    &&& fresh@ == self@
                    &&& fresh.get_primary_random() == primary_random
                    &&& fresh.get_secondary_random() == secondary_random
                    &&& place_all(
                        self.pairs(),
                        primary_random,
                        secondary_random,
                        self.get_hash_capacity(),
                    ) == Some((fresh.primary_slots(), fresh.secondary_slots()))
                },
                None => place_all(
                    self.pairs(),
                    primary_random,
                    secondary_random,
                    self.get_hash_capacity(),
                ) is None,
            },
    {
        let mut fresh = Self::with_parameters(
            self.hash_capacity,
            self.stash_capacity,
            primary_random,
            secondary_random,
        );
        let ghost mut moved: Seq<(u16, U)> = Seq::empty();
        assert(self.primary_slots().take(0) =~= Seq::empty());
        let mut i: usize = 0;
        while i < self.primary.len()
            invariant
                self.well_formed(),
                fresh.well_formed(),
                fresh.same_shape(self),
                fresh.get_primary_random() == primary_random,
                fresh.get_secondary_random() == secondary_random,
                i <= self.primary.len(),
                self.primary.len() == self.hash_capacity,
                moved == pairs_of(self.primary_slots().take(i as int)),
                place_all(moved, primary_random, secondary_random, self.hash_capacity) == Some(
                    (fresh.primary_slots(), fresh.secondary_slots()),
                ),
                fresh@ == self.moved_contents(i as int, 0),
            decreases self.primary.len() - i,
        {
            proof {
                lemma_pairs_next(self.primary_slots(), i as int);
            }
            match &self.primary[i].data {
                Some(value) => {
                    let key: u16 = self.primary[i].key;
                    let data: U = **value;
                    assert(self.primary_slots()[i as int] == Some((key, data)));
                    assert(holds(self.primary_slots(), i as int, key));
                    let ghost longer = moved.push((key, data));
                    assert(longer.drop_last() =~= moved);
                    if !fresh.displace(key, data, MAX_SECONDARY_HASH_ITERATIONS) {
                        proof {
                            lemma_pairs_split(self.primary_slots(), i + 1);
                            lemma_place_all_prefix(
                                longer,
                                pairs_of(self.primary_slots().skip(i + 1)) + pairs_of(
                                    self.secondary_slots(),
                                ),
                                primary_random,
                                secondary_random,
                                self.hash_capacity,
                            );
                            assert(self.pairs() =~= longer + (pairs_of(
                                self.primary_slots().skip(i + 1),
                            ) + pairs_of(self.secondary_slots())));
                        }
                        return None;
                    }
                    proof {
                        moved = longer;
                        assert(fresh@ =~= self.moved_contents(i + 1, 0));
                    }
                },
                None => {
                    assert(self.primary_slots()[i as int] is None);
                    assert(self.moved_contents(i as int, 0) =~= self.moved_contents(i + 1, 0));
                },
            }
            i = i + 1;
        }
        assert(self.primary_slots().take(i as int) =~= self.primary_slots());
        assert(self.secondary_slots().take(0) =~= Seq::empty());
        assert(moved + pairs_of(self.secondary_slots().take(0)) =~= moved);
        let mut j: usize = 0;
        while j < self.secondary.len()
            invariant
                self.well_formed(),
                fresh.well_formed(),
                fresh.same_shape(self),
                fresh.get_primary_random() == primary_random,
                fresh.get_secondary_random() == secondary_random,
                j <= self.secondary.len(),
                self.secondary.len() == self.hash_capacity,
                moved == pairs_of(self.primary_slots()) + pairs_of(
                    self.secondary_slots().take(j as int),
                ),
                place_all(moved, primary_random, secondary_random, self.hash_capacity) == Some(
                    (fresh.primary_slots(), fresh.secondary_slots()),
                ),
                fresh@ == self.moved_contents(self.hash_capacity as int, j as int),
            decreases self.secondary.len() - j,
        {
            proof {
                lemma_pairs_next(self.secondary_slots(), j as int);
            }
            match &self.secondary[j].data {
                Some(value) => {
                    let key: u16 = self.secondary[j].key;
                    let data: U = **value;
                    assert(self.secondary_slots()[j as int] == Some((key, data)));
                    assert(holds(self.secondary_slots(), j as int, key));
                    let ghost longer = moved.push((key, data));
                    assert(longer.drop_last() =~= moved);
                    assert(longer =~= pairs_of(self.primary_slots()) + pairs_of(
                        self.secondary_slots().take(j + 1),
                    ));
                    proof {
                        let h = slot_index(key, self.primary_random, self.hash_capacity);
                        if holds(self.primary_slots(), h, key) {
                            assert(self.primary_slots()[h] is Some);
                        }
                    }
                    if !fresh.displace(key, data, MAX_SECONDARY_HASH_ITERATIONS) {
                        proof {
                            lemma_pairs_split(self.secondary_slots(), j + 1);
                            lemma_place_all_prefix(
                                longer,
                                pairs_of(self.secondary_slots().skip(j + 1)),
                                primary_random,
                                secondary_random,
                                self.hash_capacity,
                            );
                            assert(self.pairs() =~= longer + pairs_of(
                                self.secondary_slots().skip(j + 1),
                            ));
                        }
                        return None;
                    }
                    proof {
                        moved = longer;
                        assert(fresh@ =~= self.moved_contents(
                            self.hash_capacity as int,
                            j + 1,
                        ));
                    }
                },
                None => {
                    assert(self.secondary_slots()[j as int] is None);
                    assert(self.moved_contents(self.hash_capacity as int, j as int)
                        =~= self.moved_contents(self.hash_capacity as int, j + 1));
                },
            }
            j = j + 1;
        }
        assert(self.secondary_slots().take(j as int) =~= self.secondary_slots());
        assert(fresh@ =~= self@);
        Some(fresh)
    }

    /// Rehashes with the given hash parameters: places every pair of the
    /// table in turn in empty tables under them. No pair is lost and none is
    /// added. When a pair cannot be placed, the table is left as it was.
    pub fn rehash_with(&mut self, primary_random: u16, secondary_random: u16) -> (done: Result<
        (),
        HashTableError,
    >)
        requires
            old(self).well_formed(),
        ensures
            final(self).well_formed(),
            final(self).same_shape(old(self)),
            final(self)@ == old(self)@,
            final(self).entries() == old(self).entries(),
            match place_all(
                old(self).pairs(),
                primary_random,
                secondary_random,
                old(self).get_hash_capacity(),
            ) {
                Some((primary, secondary)) => {
                    &&& done is Ok
                    &&& final(self).primary_slots() == primary
                    &&& final(self).secondary_slots() == secondary
                    &&& final(self).get_primary_random() == primary_random
                    &&& final(self).get_secondary_random() == secondary_random
                },
                None => {
                    &&& done == Err::<(), HashTableError>(HashTableError::TableFull)
                    &&& final(self).same_tables(old(self))
                },
            },
    {
        match self.rehashed(primary_random, secondary_random) {
            Some(fresh) => {
                proof {
                    fresh.lemma_same_entries(self);
                }
                *self = fresh;
                Ok(())
            },
            None => Err(HashTableError::TableFull),
        }
    }

    /// What `place_all` gives for the pairs of this table with one more pair
    /// behind them.
    pub open spec fn placed_anew(
        &self,
        key: u16,
        data: U,
        primary_random: u16,
        secondary_random: u16,
    ) -> Option<(Seq<Option<(u16, U)>>, Seq<Option<(u16, U)>>)> {
        place_all(
            self.pairs().push((key, data)),
            primary_random,
            secondary_random,
            self.get_hash_capacity(),
        )
    }

    /// Rehashes with the given hash parameters and places one more pair,
    /// whose key is absent. When a pair cannot be placed, the table is left
    /// as it was.
    fn rehash_and_place(
        &mut self,
        key: u16,
        data: U,
        primary_random: u16,
        secondary_random: u16,
    ) -> (placed: bool)
        requires
            old(self).well_formed(),
            !old(self)@.contains_key(key),
        ensures
            final(self).well_formed(),
            final(self).same_shape(old(self)),
            match old(self).placed_anew(key, data, primary_random, secondary_random) {
                Some((primary, secondary)) => {
                    &&& placed
                    &&& final(self).primary_slots() == primary
                    &&& final(self).secondary_slots() == secondary
                    &&& final(self).get_primary_random() == primary_random
                    &&& final(self).get_secondary_random() == secondary_random
                    &&& final(self)@ == old(self)@.insert(key, data)
                },
                None => !placed && final(self).same_tables(old(self)),
            },
    {
        assert(self.pairs().push((key, data)).drop_last() =~= self.pairs());
        match self.rehashed(primary_random, secondary_random) {
            Some(fresh) => {
                let mut fresh = fresh;
                if fresh.displace(key, data, MAX_SECONDARY_HASH_ITERATIONS) {
                    *self = fresh;
                    true
                } else {
                    false
                }
            },
            None => false,
        }
    }

    /// Stores the pair as `insert` does, with the given hash parameters in
    /// place of drawn ones, and with one rehash at most.
    pub fn insert_with(
        &mut self,
        key: u16,
        data: U,
        primary_random: u16,
        secondary_random: u16,
    ) -> (done: Result<(), HashTableError>)
        requires
            old(self).well_formed(),
        ensures
            final(self).well_formed(),
            final(self).same_shape(old(self)),
            old(self)@.contains_key(key) ==> done is Ok && final(self).same_tables(old(self)),
            !old(self)@.contains_key(key) ==> match old(self).placed(key, data) {
                Some((primary, secondary)) => {
                    &&& done is Ok
                    &&& final(self).primary_slots() == primary
                    &&& final(self).secondary_slots() == secondary
                    &&& final(self).get_primary_random() == old(self).get_primary_random()
                    &&& final(self).get_secondary_random() == old(self).get_secondary_random()
                },
                None => match old(self).placed_anew(key, data, primary_random, secondary_random) {
                    Some((primary, secondary)) => {
                        &&& done is Ok
                        &&& final(self).primary_slots() == primary
                        &&& final(self).secondary_slots() == secondary
                        &&& final(self).get_primary_random() == primary_random
                        &&& final(self).get_secondary_random() == secondary_random
                    },
                    None => {
                        &&& done == Err::<(), HashTableError>(HashTableError::TableFull)
                        &&& final(self).same_tables(old(self))
                    },
                },
            },
            done is Ok ==> final(self)@ == if old(self)@.contains_key(key) {
                old(self)@
            } else {
                old(self)@.insert(key, data)
            },
    {
        if self.try_insert(key, data).is_ok() {
            return Ok(());
        }
        if self.rehash_and_place(key, data, primary_random, secondary_random) {
            Ok(())
        } else {
            Err(HashTableError::TableFull)
        }
    }

    /// The pairs in the first `i` primary slots and the first `j` secondary
    /// slots, as a map.
    spec fn moved_contents(&self, i: int, j: int) -> Map<u16, U> {
        Map::new(
            |k: u16|
                (holds(
                    self.primary_slots(),
                    slot_index(k, self.primary_random, self.hash_capacity),
                    k,
                ) && slot_index(k, self.primary_random, self.hash_capacity) < i) || (holds(
                    self.secondary_slots(),
                    slot_index(k, self.secondary_random, self.hash_capacity),
                    k,
                ) && slot_index(k, self.secondary_random, self.hash_capacity) < j),
            |k: u16| self@[k],
        )
    }

    /// Rehashes the two tables: draws new hash parameters and places every
    /// pair under them, for up to `MAX_REHASH_ATTEMPTS` draws. No pair is
    /// lost and none is added. The table is left as it was when no draw lets
    /// every pair be placed.
    pub fn rehash(&mut self) -> (done: Result<(), HashTableError>)
        requires
            old(self).well_formed(),
        ensures
            final(self).well_formed(),
            final(self).same_shape(old(self)),
            final(self)@ == old(self)@,
            final(self).entries() == old(self).entries(),
            done is Ok ==> place_all(
                old(self).pairs(),
                final(self).get_primary_random(),
                final(self).get_secondary_random(),
                old(self).get_hash_capacity(),
            ) == Some((final(self).primary_slots(), final(self).secondary_slots())),
            done is Err ==> done == Err::<(), HashTableError>(HashTableError::TableFull)
                && final(self).same_tables(old(self)),
            (forall|a: u16, b: u16|
                (#[trigger] place_all(old(self).pairs(), a, b, old(self).get_hash_capacity()))
                    is Some) ==> done is Ok,
            (forall|a: u16, b: u16|
                (#[trigger] place_all(old(self).pairs(), a, b, old(self).get_hash_capacity()))
                    is None) ==> done is Err,
    {
        let ghost mut failed: (u16, u16) = (0, 0);
        let mut attempt: u16 = 0;
        while attempt < MAX_REHASH_ATTEMPTS
            invariant
                self.well_formed(),
                self.same_shape(old(self)),
                self.same_tables(old(self)),
                self.entries() == old(self).entries(),
                attempt > 0 ==> place_all(
                    old(self).pairs(),
                    failed.0,
                    failed.1,
                    old(self).get_hash_capacity(),
                ) is None,
            decreases MAX_REHASH_ATTEMPTS - attempt,
        {
            let primary_random = random_u16();
            let secondary_random = random_u16();
            if self.rehash_with(primary_random, secondary_random).is_ok() {
                return Ok(());
            }
            proof {
                failed = (primary_random, secondary_random);
            }
            attempt = attempt + 1;
        }
        Err(HashTableError::TableFull)
    }
}

impl<U: Copy> HashTable<U> for CuckooHash<U> {
    open spec fn wf(&self) -> bool {
        self.well_formed()
    }

    open spec fn contents(&self) -> Map<u16, U> {
        self@
    }

    /// Stores the pair unless the key is already there. The pair is placed
    /// by eviction; when that does not end within the budget, the table is
    /// rehashed with drawn hash parameters and the pair placed in it, for up
    /// to `MAX_REHASH_ATTEMPTS` draws. On `TableFull` the table is left as it
    /// was.
    fn insert(&mut self, key: u16, data: U) -> (done: Result<(), HashTableError>)
        ensures
            final(self).same_shape(old(self)),
            old(self)@.contains_key(key) ==> done is Ok && final(self).same_tables(old(self)),
            !old(self)@.contains_key(key) ==> match old(self).placed(key, data) {
                Some((primary, secondary)) => {
                    &&& done is Ok
                    &&& final(self).primary_slots() == primary
                    &&& final(self).secondary_slots() == secondary
                    &&& final(self).get_primary_random() == old(self).get_primary_random()
                    &&& final(self).get_secondary_random() == old(self).get_secondary_random()
                },
                None => {
                    &&& done is Ok ==> old(self).placed_anew(
                        key,
                        data,
                        final(self).get_primary_random(),
                        final(self).get_secondary_random(),
                    ) == Some((final(self).primary_slots(), final(self).secondary_slots()))
                    &&& (forall|a: u16, b: u16|
                        (#[trigger] old(self).placed_anew(key, data, a, b)) is Some) ==> done is Ok
                    &&& (forall|a: u16, b: u16|
                        (#[trigger] old(self).placed_anew(key, data, a, b)) is None) ==> done is Err
                },
            },
            done is Ok ==> final(self)@ == if old(self)@.contains_key(key) {
                old(self)@
            } else {
                old(self)@.insert(key, data)
            },
            done is Err ==> final(self).same_tables(old(self)),
    {
        if self.try_insert(key, data).is_ok() {
            proof {
                if old(self)@.contains_key(key) {
                    assert(self@ =~= old(self)@.insert(key, self@[key]));
                }
            }
            return Ok(());
        }
        let ghost mut failed: (u16, u16) = (0, 0);
        let mut attempt: u16 = 0;
        while attempt < MAX_REHASH_ATTEMPTS
            invariant
                self.well_formed(),
                self.same_shape(old(self)),
                self.same_tables(old(self)),
                !self@.contains_key(key),
                old(self).placed(key, data) is None,
                attempt > 0 ==> old(self).placed_anew(key, data, failed.0, failed.1) is None,
            decreases MAX_REHASH_ATTEMPTS - attempt,
        {
            let primary_random = random_u16();
            let secondary_random = random_u16();
            assert(self.pairs() == old(self).pairs());
            if self.rehash_and_place(key, data, primary_random, secondary_random) {
                return Ok(());
            }
            proof {
                failed = (primary_random, secondary_random);
            }
            attempt = attempt + 1;
        }
        Err(HashTableError::TableFull)
    }

    /// Empties the slot that holds the key, if one does.
    fn delete(&mut self, key: u16) -> (done: Result<(), HashTableError>)
        ensures
            done is Ok,
            final(self).same_shape(old(self)),
            final(self).get_primary_random() == old(self).get_primary_random(),
            final(self).get_secondary_random() == old(self).get_secondary_random(),
            final(self).primary_slots() == cleared(
                old(self).primary_slots(),
                slot_index(key, old(self).get_primary_random(), old(self).get_hash_capacity()),
                key,
            ),
            final(self).secondary_slots() == cleared(
                old(self).secondary_slots(),
                slot_index(key, old(self).get_secondary_random(), old(self).get_hash_capacity()),
                key,
            ),
            final(self)@ == old(self)@.remove(key),
    {
        proof {
            lemma_cleared(
                self.primary_slots(),
                self.secondary_slots(),
                self.primary_random,
                self.secondary_random,
                self.hash_capacity,
                key,
            );
            assert(self@.remove(key).remove(key) =~= self@.remove(key));
        }
        let x: usize = self.hash(key) as usize;
        if self.primary[x].data.is_none() || self.primary[x].key != key {
            assert(!holds(self.primary_slots(), x as int, key));
            let x: usize = self.secondary_hash(key) as usize;
            if self.secondary[x].data.is_none() || self.secondary[x].key != key {
                assert(!holds(self.secondary_slots(), x as int, key));
                Ok(())
            } else {
                self.secondary[x] = HashTableEntry::default();
                assert(holds(old(self).secondary_slots(), x as int, key));
                assert(self.secondary_slots() =~= old(self).secondary_slots().update(
                    x as int,
                    None,
                ));
                assert(self.primary_slots() =~= old(self).primary_slots());
                Ok(())
            }
        } else {
            self.primary[x] = HashTableEntry::default();
            assert(holds(old(self).primary_slots(), x as int, key));
            assert(old(self).primary_slots()[x as int] is Some);
            assert(self.primary_slots() =~= old(self).primary_slots().update(x as int, None));
            assert(self.secondary_slots() =~= old(self).secondary_slots());
            Ok(())
        }
    }

    /// Reads the key's slot in the primary table, then in the secondary.
    fn lookup(&self, key: u16) -> (found: Result<U, HashTableError>) {
        let x: usize = self.hash(key) as usize;
        if self.primary[x].key == key {
            match &self.primary[x].data {
                Some(value) => {
                    assert(holds(self.primary_slots(), x as int, key));
                    return Ok(**value);
                },
                None => {},
            }
        }
        assert(!holds(self.primary_slots(), x as int, key));
        let x: usize = self.secondary_hash(key) as usize;
        if self.secondary[x].key == key {
            match &self.secondary[x].data {
                Some(value) => {
                    assert(holds(self.secondary_slots(), x as int, key));
                    return Ok(**value);
                },
                None => {},
            }
        }
        assert(!holds(self.secondary_slots(), x as int, key));
        Err(HashTableError::NotFound)
    }
}

/// Builds a `CuckooHash` of chosen capacities.
pub struct CuckooHashBuilder<U> {
    _phantom_u: PhantomData<U>,
    hash_capacity: u16,
    stash_capacity: u16,
    primary_random: u16,
    secondary_random: u16,
}

impl<U: Copy> CuckooHashBuilder<U> {
    /// The capacity that `build` will give each of the two tables.
    pub closed spec fn hash_capacity(&self) -> u16 {
        self.hash_capacity
    }

    /// The capacity that `build` will give the stash.
    pub closed spec fn stash_capacity(&self) -> u16 {
        self.stash_capacity
    }

    /// A builder for a table of capacity 0 with a stash of `DEFAULT_STASH_SIZE`
    /// slots; `with_hash_capacity` and `with_stash_capacity` set others.
    pub fn new() -> (builder: CuckooHashBuilder<U>)
        ensures
            builder.hash_capacity() == 0,
            builder.stash_capacity() == DEFAULT_STASH_SIZE,
    {
        CuckooHashBuilder {
            _phantom_u: PhantomData,
            hash_capacity: 0,
            stash_capacity: DEFAULT_STASH_SIZE,
            primary_random: random_u16(),
            secondary_random: random_u16(),
        }
    }

    /// Sets the capacity of each of the two tables.
    pub fn with_hash_capacity(self, capacity: u16) -> (builder: CuckooHashBuilder<U>)
        ensures
            builder.hash_capacity() == capacity,
            builder.stash_capacity() == self.stash_capacity(),
    {
        let mut builder = self;
        builder.hash_capacity = capacity;
        builder
    }

    /// Sets the capacity of the stash.
    pub fn with_stash_capacity(self, capacity: u16) -> (builder: CuckooHashBuilder<U>)
        ensures
            builder.hash_capacity() == self.hash_capacity(),
            builder.stash_capacity() == capacity,
    {
        let mut builder = self;
        builder.stash_capacity = capacity;
        builder
    }

    /// An empty table of the chosen capacities, with hash parameters drawn
    /// for it.
    pub fn build(self) -> (table: CuckooHash<U>)
        requires
            self.hash_capacity() > 0,
        ensures
            table.well_formed(),
            table.get_hash_capacity() == self.hash_capacity(),
            table.get_stash_capacity() == self.stash_capacity(),
            table.primary_slots() == no_pairs::<U>(self.hash_capacity()),
            table.secondary_slots() == no_pairs::<U>(self.hash_capacity()),
            table.pairs() == Seq::<(u16, U)>::empty(),
            table@ == Map::<u16, U>::empty(),
    {
        let mut hash = CuckooHash::<U>::with_parameters(
            self.hash_capacity,
            self.stash_capacity,
            self.primary_random,
            self.secondary_random,
        );
        hash.update_primary_random();
        hash.update_secondary_random();
        hash
    }
}

} // verus!
