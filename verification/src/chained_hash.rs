//! Separate chaining: every slot of the table is a singly linked list of the
//! pairs whose keys hash to it, newest first.

use crate::hash_table::{HashFn, HashTable, HashTableEntry, HashTableError};
use std::marker::PhantomData;
use vstd::prelude::*;

verus! {

/// The rest of a chain: a node, or nothing at the end.
pub type Link<U> = Option<Box<ChainedHashEntry<U>>>;

/// A chain of pairs.
#[derive(Debug, PartialEq)]
pub struct List<U> {
    head: Link<U>,
}

/// A node of a chain: a pair, and the rest of the chain.
#[derive(Debug, PartialEq)]
pub struct ChainedHashEntry<U> {
    data: HashTableEntry<U>,
    next: Link<U>,
}

/// The value of the first pair with this key, if there is one.
pub open spec fn first_match<U>(pairs: Seq<(u16, U)>, key: u16) -> Option<U>
    decreases pairs.len(),
{
    if pairs.len() == 0 {
        None
    } else if pairs[0].0 == key {
        Some(pairs[0].1)
    } else {
        first_match(pairs.drop_first(), key)
    }
}

/// The pairs without the first pair with this key.
pub open spec fn remove_first<U>(pairs: Seq<(u16, U)>, key: u16) -> Seq<(u16, U)>
    decreases pairs.len(),
{
    if pairs.len() == 0 {
        pairs
    } else if pairs[0].0 == key {
        pairs.drop_first()
    } else {
        seq![pairs[0]] + remove_first(pairs.drop_first(), key)
    }
}

/// The pairs from this link to the end of the chain.
pub closed spec fn pairs_from<U>(link: Link<U>) -> Seq<(u16, U)>
    decreases link,
{
    match link {
        None => Seq::empty(),
        Some(node) => seq![(node.data.key, *node.data.data->Some_0)] + pairs_from(node.next),
    }
}

/// Every node from this link on holds a value.
pub closed spec fn all_full<U>(link: Link<U>) -> bool
    decreases link,
{
    match link {
        None => true,
        Some(node) => node.data.data is Some && all_full(node.next),
    }
}

impl<U> ChainedHashEntry<U> {
    /// The slot that the node holds.
    #[verifier::when_used_as_spec(spec_entry)]
    pub fn entry(&self) -> (entry: &HashTableEntry<U>)
        ensures
            *entry == self.entry(),
    {
        &self.data
    }

    /// The slot that the node holds.
    pub closed spec fn spec_entry(&self) -> &HashTableEntry<U> {
        &self.data
    }
}

/// The chain that leads through nodes with the entries `passed`, in their
/// order, to `link`.
spec fn behind<U>(passed: Seq<HashTableEntry<U>>, link: Link<U>) -> Link<U>
    decreases passed.len(),
{
    if passed.len() == 0 {
        link
    } else {
        behind(
            passed.drop_last(),
            Some(Box::new(ChainedHashEntry { data: passed.last(), next: link })),
        )
    }
}

/// The pairs of full entries.
spec fn pairs_in<U>(entries: Seq<HashTableEntry<U>>) -> Seq<(u16, U)> {
    entries.map_values(|entry: HashTableEntry<U>| (entry.key, *entry.data->Some_0))
}

/// A chain that leads through full nodes without the key to `link` has
/// their pairs in front of the pairs from `link`; the first pair with the
/// key, if there is one, is the first from `link`.
proof fn lemma_behind<U>(passed: Seq<HashTableEntry<U>>, link: Link<U>, key: u16)
    requires
        forall|i: int|
            0 <= i < passed.len() ==> (#[trigger] passed[i]).data is Some && passed[i].key != key,
    ensures
        pairs_from(behind(passed, link)) == pairs_in(passed) + pairs_from(link),
        all_full(behind(passed, link)) == all_full(link),
        first_match(pairs_in(passed) + pairs_from(link), key) == first_match(
            pairs_from(link),
            key,
        ),
        remove_first(pairs_in(passed) + pairs_from(link), key) == pairs_in(passed) + remove_first(
            pairs_from(link),
            key,
        ),
    decreases passed.len(),
{
    let pairs = pairs_in(passed);
    let rest = pairs_from(link);
    if passed.len() == 0 {
        assert(pairs + rest =~= rest);
        assert(pairs + remove_first(rest, key) =~= remove_first(rest, key));
    } else {
        let inner = Some(Box::new(ChainedHashEntry { data: passed.last(), next: link }));
        let fewer = pairs_in(passed.drop_last());
        lemma_behind(passed.drop_last(), inner, key);
        assert(pairs_from(inner) =~= seq![pairs.last()] + rest);
        assert(pairs_from(inner).drop_first() =~= rest);
        assert(fewer + pairs_from(inner) =~= pairs + rest);
        assert(fewer + remove_first(pairs_from(inner), key) =~= pairs + remove_first(rest, key));
    }
}

impl<U> View for List<U> {
    type V = Seq<(u16, U)>;

    /// The pairs of the chain, newest first.
    closed spec fn view(&self) -> Seq<(u16, U)> {
        pairs_from(self.head)
    }
}

impl<U> List<U> {
    /// Every node of the chain holds a value.
    pub closed spec fn well_formed(&self) -> bool {
        all_full(self.head)
    }

    /// An iterator over the chain, from its head.
    pub fn iter(&self) -> (iterator: ChainedHashIterator<'_, U>)
        ensures
            iterator@ == self@,
            iterator.well_formed() == self.well_formed(),
    {
        ChainedHashIterator { next: &self.head }
    }
}

/// A position in a chain.
#[derive(Debug)]
pub struct ChainedHashIterator<'a, U> {
    next: &'a Link<U>,
}

impl<'a, U> View for ChainedHashIterator<'a, U> {
    type V = Seq<(u16, U)>;

    /// The pairs still to come.
    closed spec fn view(&self) -> Seq<(u16, U)> {
        pairs_from(*self.next)
    }
}

impl<'a, U> ChainedHashIterator<'a, U> {
    /// Every node still to come holds a value.
    pub closed spec fn well_formed(&self) -> bool {
        all_full(*self.next)
    }

    /// The link to the next node, or `None` at the end of the chain.
    pub fn next(&mut self) -> (item: Option<&'a Link<U>>)
        ensures
            old(self).well_formed() ==> final(self).well_formed(),
            match item {
                None => old(self)@.len() == 0 && final(self)@ == old(self)@,
                Some(link) => {
                    &&& *link is Some
                    &&& pairs_from(*link) == old(self)@
                    &&& all_full(*link) == old(self).well_formed()
                    &&& old(self)@.len() > 0
                    &&& old(self).well_formed() ==> (*link)->Some_0.entry().pair() == Some(
                        old(self)@[0],
                    )
                    &&& final(self)@ == old(self)@.drop_first()
                },
            },
    {
        let current = self.next;
        match current {
            None => None,
            Some(node) => {
                assert(pairs_from(*current).drop_first() =~= pairs_from(node.next));
                self.next = &node.next;
                Some(current)
            },
        }
    }
}

/// Looking a key up in a chain with a pair in front finds that pair's value
/// for its key, and what the chain gave for every other key.
pub proof fn lemma_first_match_push<U>(pairs: Seq<(u16, U)>, key: u16, data: U, other: u16)
    ensures
        first_match(seq![(key, data)] + pairs, other) == if other == key {
            Some(data)
        } else {
            first_match(pairs, other)
        },
{
    assert((seq![(key, data)] + pairs).drop_first() =~= pairs);
}

/// Taking the first pair with a key out of a chain changes nothing for any
/// other key, and brings no pair with the key in.
pub proof fn lemma_first_match_remove<U>(pairs: Seq<(u16, U)>, key: u16, other: u16)
    ensures
        other != key ==> first_match(remove_first(pairs, key), other) == first_match(pairs, other),
        first_match(remove_first(pairs, key), key) is Some ==> first_match(pairs, key) is Some,
        first_match(pairs, key) is None ==> remove_first(pairs, key) == pairs,
    decreases pairs.len(),
{
    if pairs.len() > 0 && pairs[0].0 != key {
        lemma_first_match_remove(pairs.drop_first(), key, other);
        let rest = remove_first(pairs.drop_first(), key);
        assert((seq![pairs[0]] + rest).drop_first() =~= rest);
        if first_match(pairs, key) is None {
            assert(seq![pairs[0]] + pairs.drop_first() =~= pairs);
        }
    }
}

/// A key that is inserted twice is found with the value inserted last;
/// deleting it once takes out that pair alone, and the key is then found with
/// the value inserted first.
pub proof fn lemma_insert_twice_delete_once<U>(
    pairs: Seq<(u16, U)>,
    key: u16,
    first: U,
    second: U,
)
    ensures
        ({
            let once = seq![(key, first)] + pairs;
            let twice = seq![(key, second)] + once;
            &&& first_match(twice, key) == Some(second)
            &&& remove_first(twice, key) == once
            &&& first_match(remove_first(twice, key), key) == Some(first)
        }),
{
    let once = seq![(key, first)] + pairs;
    let twice = seq![(key, second)] + once;
    assert(twice.drop_first() =~= once);
}

/// A table of `capacity` chains; a key's chain is number `key % capacity`.
pub struct ChainedHash<U> {
    table: Vec<List<U>>,
    capacity: u16,
}

impl<U> View for ChainedHash<U> {
    type V = Seq<Seq<(u16, U)>>;

    /// The chains of the table, each newest first.
    closed spec fn view(&self) -> Seq<Seq<(u16, U)>> {
        self.table@.map_values(|list: List<U>| list@)
    }
}

impl<U> ChainedHash<U> {
    /// The number of chains.
    #[verifier::when_used_as_spec(spec_get_capacity)]
    pub fn get_capacity(&self) -> (capacity: u16)
        ensures
            capacity == self.get_capacity(),
    {
        self.capacity
    }

    /// The number of chains.
    pub closed spec fn spec_get_capacity(&self) -> u16 {
        self.capacity
    }

    /// The table's invariant: it has `capacity` chains, and every pair is in
    /// the chain of its key.
    pub open spec fn well_formed(&self) -> bool {
        &&& self.linked()
        &&& self.get_capacity() > 0
        &&& self@.len() == self.get_capacity()
        &&& forall|i: int, n: int|
            0 <= i < self@.len() && 0 <= n < self@[i].len() ==> self.chain_of(
                (#[trigger] self@[i][n]).0,
            ) == i
    }

    /// The invariant of the lists behind the chains: there are `capacity` of
    /// them, and every node holds a value.
    pub closed spec fn linked(&self) -> bool {
        &&& self.table.len() == self.capacity
        &&& forall|i: int| 0 <= i < self.capacity ==> (#[trigger] self.table@[i]).well_formed()
    }

    /// The number of the chain of `key`.
    pub open spec fn chain_of(&self, key: u16) -> int {
        (key % self.get_capacity()) as int
    }

    /// The chain of `key`.
    pub fn chain(&self, key: u16) -> (list: &List<U>)
        requires
            self.well_formed(),
        ensures
            list@ == self@[self.chain_of(key)],
            list.well_formed(),
    {
        &self.table[self.hash(key) as usize]
    }
}

impl<U> HashFn for ChainedHash<U> {
    open spec fn slot_count(&self) -> nat {
        self.get_capacity() as nat
    }

    open spec fn spec_hash(&self, key: u16) -> u16 {
        (key % self.get_capacity()) as u16
    }

    /// The number of the chain of `key`.
    fn hash(&self, key: u16) -> (slot: u16) {
        key % self.get_capacity()
    }
}

impl<U: Copy> HashTable<U> for ChainedHash<U> {
    open spec fn wf(&self) -> bool {
        self.well_formed()
    }

    /// For each key, the value of the newest pair with the key.
    open spec fn contents(&self) -> Map<u16, U> {
        Map::new(
            |k: u16| first_match(self@[self.chain_of(k)], k) is Some,
            |k: u16| first_match(self@[self.chain_of(k)], k)->Some_0,
        )
    }

    /// Puts the pair at the head of the key's chain, in front of any pair
    /// with the same key.
    fn insert(&mut self, key: u16, data: U) -> (done: Result<(), HashTableError>)
        ensures
            done is Ok,
            final(self).get_capacity() == old(self).get_capacity(),
            final(self)@ == old(self)@.update(
                old(self).chain_of(key),
                seq![(key, data)] + old(self)@[old(self).chain_of(key)],
            ),
            final(self).contents() == old(self).contents().insert(key, data),
    {
        let x: usize = self.hash(key) as usize;
        let entry = ChainedHashEntry::<U> {
            data: HashTableEntry::<U> { key, data: Some(Box::new(data)) },
            next: self.table[x].head.take(),
        };
        self.table[x].head = Some(Box::new(entry));
        proof {
            let chain = old(self)@[x as int];
            assert(self.table@[x as int]@ =~= seq![(key, data)] + chain);
            assert(self@ =~= old(self)@.update(x as int, seq![(key, data)] + chain));
            assert forall|i: int| 0 <= i < self.capacity implies (
            #[trigger] self.table@[i]).well_formed() by {
                if i != x {
                    assert(old(self).table@[i].well_formed());
                }
            }
            assert forall|i: int, n: int|
                0 <= i < self.capacity && 0 <= n < self@[i].len() implies (#[trigger] self@[i][n]).0
                % self.capacity == i by {
                if i != x {
                    assert(old(self)@[i][n].0 % self.capacity == i);
                } else if n > 0 {
                    assert(old(self)@[i][n - 1].0 % self.capacity == i);
                }
            }
            assert forall|k: u16| #[trigger]
                self.contents().contains_key(k) == old(self).contents().insert(
                    key,
                    data,
                ).contains_key(k) && (self.contents().contains_key(k) ==> self.contents()[k]
                    == old(self).contents().insert(key, data)[k]) by {
                if self.chain_of(k) == x {
                    lemma_first_match_push(chain, key, data, k);
                }
            }
            assert(self.contents() =~= old(self).contents().insert(key, data));
        }
        Ok(())
    }

    /// Takes the newest pair with the key out of the key's chain: walks down
    /// the chain to the link that leads to the pair's node, and lets that link
    /// lead to the node's successor.
    fn delete(&mut self, key: u16) -> (done: Result<(), HashTableError>)
        ensures
            done is Ok <==> old(self).contents().contains_key(key),
            final(self).get_capacity() == old(self).get_capacity(),
            final(self)@ == old(self)@.update(
                old(self).chain_of(key),
                remove_first(old(self)@[old(self).chain_of(key)], key),
            ),
    {
        let x: usize = self.hash(key) as usize;
        let ghost chain = self@[x as int];
        assert(self.table@[x as int].well_formed());
        let ghost mut passed: Seq<HashTableEntry<U>> = Seq::empty();
        let mut cur: &mut Link<U> = &mut self.table[x].head;
        let mut found = false;
        loop
            invariant_except_break
                !found,
                forall|i: int|
                    0 <= i < passed.len() ==> (#[trigger] passed[i]).data is Some && passed[i].key
                        != key,
                old(self).table@[x as int].head == behind(passed, *cur),
                all_full(*cur),
            invariant
                x < old(self).table@.len(),
                chain == pairs_from(old(self).table@[x as int].head),
                after_borrow(self.table)@ == old(self).table@.update(
                    x as int,
                    List { head: behind(passed, *final(cur)) },
                ),
            ensures
                all_full(behind(passed, *cur)),
                pairs_from(behind(passed, *cur)) == remove_first(chain, key),
                found == first_match(chain, key) is Some,
            decreases pairs_from(*cur).len(),
        {
            let matched = match &*cur {
                None => {
                    proof {
                        lemma_behind(passed, *cur, key);
                    }
                    break;
                },
                Some(node) => node.data.key == key,
            };
            if matched {
                let ghost before = *cur;
                match cur.take() {
                    Some(node) => {
                        *cur = node.next;
                    },
                    None => {},
                }
                proof {
                    lemma_behind(passed, before, key);
                    lemma_behind(passed, *cur, key);
                    assert(pairs_from(before).drop_first() =~= pairs_from(*cur));
                }
                found = true;
                break;
            }
            match cur {
                Some(node) => {
                    proof {
                        let longer = passed.push(node.data);
                        assert(longer.drop_last() =~= passed);
                        passed = longer;
                    }
                    cur = &mut node.next;
                },
                None => {},
            }
        }
        proof {
            assert(self.table@[x as int]@ =~= remove_first(chain, key));
            assert(self@ =~= old(self)@.update(x as int, remove_first(chain, key)));
            assert forall|i: int| 0 <= i < self.capacity implies (
            #[trigger] self.table@[i]).well_formed() by {
                if i != x {
                    assert(old(self).table@[i].well_formed());
                }
            }
            assert forall|i: int, n: int|
                0 <= i < self.capacity && 0 <= n < self@[i].len() implies (#[trigger] self@[i][n]).0
                % self.capacity == i by {
                if i != x {
                    assert(old(self)@[i][n].0 % self.capacity == i);
                } else {
                    lemma_remove_first_subset(chain, key, n);
                    let m = choose|m: int| 0 <= m < chain.len() && chain[m] == self@[i][n];
                    assert(old(self)@[i][m].0 % self.capacity == i);
                }
            }
            assert forall|k: u16| k != key implies #[trigger] self.contents().contains_key(k)
                == old(self).contents().contains_key(k) && (self.contents().contains_key(k)
                ==> self.contents()[k] == old(self).contents()[k]) by {
                if self.chain_of(k) == x {
                    lemma_first_match_remove(chain, key, k);
                }
            }
            lemma_first_match_remove(chain, key, key);
            assert(self.contents().remove(key) =~= old(self).contents().remove(key));
            if !found {
                assert(self@ =~= old(self)@);
                assert(self.contents() =~= old(self).contents());
            }
        }
        if found {
            Ok(())
        } else {
            Err(HashTableError::NotFound)
        }
    }

    /// Walks the key's chain to the newest pair with the key.
    fn lookup(&self, key: u16) -> (found: Result<U, HashTableError>)
        ensures
            found == match first_match(self@[self.chain_of(key)], key) {
                Some(value) => Ok::<U, HashTableError>(value),
                None => Err::<U, HashTableError>(HashTableError::NotFound),
            },
    {
        let x: usize = self.hash(key) as usize;
        let mut walk = self.table[x].iter();
        assert(self.table@[x as int].well_formed());
        loop
            invariant
                walk.well_formed(),
                first_match(walk@, key) == first_match(self@[self.chain_of(key)], key),
            decreases walk@.len(),
        {
            match walk.next() {
                None => {
                    return Err(HashTableError::NotFound);
                },
                Some(elem) => {
                    match elem {
                        Some(value) => {
                            if value.data.key == key {
                                match &value.data.data {
                                    Some(data) => {
                                        return Ok(**data);
                                    },
                                    None => {},
                                }
                            }
                        },
                        None => {},
                    }
                },
            }
        }
    }
}

/// Every pair of a chain without the first pair with a key is a pair of the
/// chain.
pub proof fn lemma_remove_first_subset<U>(pairs: Seq<(u16, U)>, key: u16, n: int)
    requires
        0 <= n < remove_first(pairs, key).len(),
    ensures
        exists|m: int| 0 <= m < pairs.len() && pairs[m] == remove_first(pairs, key)[n],
    decreases pairs.len(),
{
    if pairs[0].0 == key {
        assert(pairs[n + 1] == remove_first(pairs, key)[n]);
    } else if n == 0 {
        assert(pairs[0] == remove_first(pairs, key)[n]);
    } else {
        lemma_remove_first_subset(pairs.drop_first(), key, n - 1);
        let m = choose|m: int|
            0 <= m < pairs.drop_first().len() && pairs.drop_first()[m] == remove_first(
                pairs.drop_first(),
                key,
            )[n - 1];
        assert(pairs[m + 1] == remove_first(pairs, key)[n]);
    }
}

/// Builds a `ChainedHash` of a chosen capacity.
pub struct ChainedHashBuilder<U> {
    _phantom_u: PhantomData<U>,
    capacity: u16,
}

impl<U: Copy> ChainedHashBuilder<U> {
    /// The capacity that `build` will give the table.
    pub closed spec fn capacity(&self) -> u16 {
        self.capacity
    }

    /// A builder for a table of capacity 0; `with_capacity` sets another.
    pub fn new() -> (builder: ChainedHashBuilder<U>)
        ensures
            builder.capacity() == 0,
    {
        ChainedHashBuilder { _phantom_u: PhantomData, capacity: 0 }
    }

    /// Sets the capacity.
    pub fn with_capacity(self, capacity: u16) -> (builder: ChainedHashBuilder<U>)
        ensures
            builder.capacity() == capacity,
    {
        let mut builder = self;
        builder.capacity = capacity;
        builder
    }

    /// A table of the chosen capacity whose chains are all empty.
    pub fn build(self) -> (table: ChainedHash<U>)
        requires
            self.capacity() > 0,
        ensures
            table.well_formed(),
            table.get_capacity() == self.capacity(),
            table@ == Seq::new(self.capacity() as nat, |i: int| Seq::<(u16, U)>::empty()),
            table.contents() == Map::<u16, U>::empty(),
    {
        let mut hash = ChainedHash::<U> {
            table: Vec::with_capacity(self.capacity as usize),
            capacity: self.capacity,
        };
        let mut i: u16 = 0;
        while i < self.capacity
            invariant
                i <= self.capacity,
                hash.capacity == self.capacity,
                hash.table.len() == i,
                forall|j: int| 0 <= j < i ==> (#[trigger] hash.table@[j]).head is None,
            decreases self.capacity - i,
        {
            hash.table.push(List { head: None });
            i = i + 1;
        }
        assert(hash@ =~= Seq::new(self.capacity as nat, |i: int| Seq::<(u16, U)>::empty()));
        assert(hash.contents() =~= Map::<u16, U>::empty());
        hash
    }
}

} // verus!
