use hash_tables::cuckoo_hash::{CuckooHashBuilder, DEFAULT_STASH_SIZE};
use hash_tables::hash_table::{HashFn, HashTable, HashTableError};

#[test]
fn can_create_cuckoo_hash() {
    let mut x = CuckooHashBuilder::<u16>::new()
        .with_hash_capacity(3)
        .build();
    assert_eq!(x.get_hash_capacity(), 3);
    let mut item = 10;
    assert!(x.insert(1, item).is_ok());
    item += 10;
    assert!(x.insert(2, item).is_ok());
    item += 10;
    assert!(x.insert(3, item).is_ok());
    item += 10;
    assert!(x.insert(4, item).is_ok());
}

#[test]
fn can_create_cuckoo_hash_and_search() {
    let mut x = CuckooHashBuilder::<u16>::new()
        .with_hash_capacity(3)
        .build();

    assert_eq!(x.get_hash_capacity(), 3);
    let mut item = 10;
    assert!(x.insert(1, item).is_ok());
    item += 10;
    assert!(x.insert(2, item).is_ok());
    item += 10;
    assert!(x.insert(3, item).is_ok());
    item += 10;
    assert!(x.insert(4, item).is_ok());

    let ret = x.lookup(1);
    assert!(ret.is_ok());
    assert_eq!(ret.unwrap(), 10);
    let ret = x.lookup(2);
    assert!(ret.is_ok());
    assert_eq!(ret.unwrap(), 20);
    let ret = x.lookup(3);
    assert!(ret.is_ok());
    assert_eq!(ret.unwrap(), 30);
    let ret = x.lookup(4);
    assert!(ret.is_ok());
    assert_eq!(ret.unwrap(), 40);
    let ret = x.lookup(17);
    assert_eq!(ret.is_ok(), false);
}

#[test]
fn can_create_cuckoo_hash_and_delete() {
    let mut x = CuckooHashBuilder::<u16>::new()
        .with_hash_capacity(3)
        .build();
    assert_eq!(x.get_hash_capacity(), 3);
    let mut item = 10;
    assert!(x.insert(1, item).is_ok());
    item += 10;
    assert!(x.insert(2, item).is_ok());
    item += 10;
    assert!(x.insert(3, item).is_ok());
    item += 10;
    assert!(x.insert(4, item).is_ok());
    item += 10;
    assert!(x.insert(5, item).is_ok());
    item += 10;
    assert!(x.insert(6, item).is_ok());

    let ret = x.lookup(1);
    assert!(ret.is_ok());
    assert_eq!(ret.unwrap(), 10);
    let ret = x.lookup(2);
    assert!(ret.is_ok());
    assert_eq!(ret.unwrap(), 20);
    let ret = x.lookup(3);
    assert!(ret.is_ok());
    assert_eq!(ret.unwrap(), 30);
    let ret = x.lookup(4);
    assert!(ret.is_ok());
    assert_eq!(ret.unwrap(), 40);
    let ret = x.lookup(5);
    assert!(ret.is_ok());
    assert_eq!(ret.unwrap(), 50);
    let ret = x.lookup(6);
    assert!(ret.is_ok());
    assert_eq!(ret.unwrap(), 60);

    let ret = x.delete(1);
    assert!(ret.is_ok());
    let ret = x.lookup(1);
    assert_eq!(ret.is_ok(), false);
    let ret = x.delete(2);
    assert!(ret.is_ok());
    let ret = x.lookup(2);
    assert_eq!(ret.is_ok(), false);
    let ret = x.delete(3);
    assert!(ret.is_ok());
    let ret = x.lookup(3);
    assert_eq!(ret.is_ok(), false);
    let ret = x.delete(4);
    assert!(ret.is_ok());
    let ret = x.lookup(4);
    assert_eq!(ret.is_ok(), false);
    let ret = x.delete(5);
    assert!(ret.is_ok());
    let ret = x.lookup(5);
    assert_eq!(ret.is_ok(), false);
    let ret = x.delete(6);
    assert!(ret.is_ok());
    let ret = x.lookup(6);
    assert_eq!(ret.is_ok(), false);

    // see if we can insert them again

    let mut item = 100;
    assert!(x.insert(1, item).is_ok());
    item += 100;
    assert!(x.insert(2, item).is_ok());
    item += 100;
    assert!(x.insert(3, item).is_ok());

    let ret = x.lookup(1);
    assert!(ret.is_ok());
    assert_eq!(ret.unwrap(), 100);
    let ret = x.lookup(2);
    assert!(ret.is_ok());
    assert_eq!(ret.unwrap(), 200);
    let ret = x.lookup(3);
    assert!(ret.is_ok());
    assert_eq!(ret.unwrap(), 300);

    let ret = x.delete(1);
    assert!(ret.is_ok());
    let ret = x.lookup(1);
    assert_eq!(ret.is_ok(), false);
    let ret = x.delete(2);
    assert!(ret.is_ok());
    let ret = x.lookup(2);
    assert_eq!(ret.is_ok(), false);
    let ret = x.delete(3);
    assert!(ret.is_ok());
    let ret = x.lookup(3);
    assert_eq!(ret.is_ok(), false);
}

#[test]
fn cuckoo_builder_sets_the_capacities() {
    let x = CuckooHashBuilder::<u16>::new().with_hash_capacity(5).build();
    assert_eq!(x.get_hash_capacity(), 5);
    assert_eq!(x.get_stash_capacity(), DEFAULT_STASH_SIZE);
    assert_eq!(DEFAULT_STASH_SIZE, 8);
    let x = CuckooHashBuilder::<u16>::new()
        .with_stash_capacity(2)
        .with_hash_capacity(7)
        .build();
    assert_eq!(x.get_hash_capacity(), 7);
    assert_eq!(x.get_stash_capacity(), 2);
}

#[test]
fn cuckoo_hashes_mask_the_key_with_the_parameter() {
    let mut x = CuckooHashBuilder::<u16>::new().with_hash_capacity(5).build();
    assert_eq!(x.rehash_with(0x00ff, 0x0f0f), Ok(()));
    assert_eq!(x.get_primary_random(), 0x00ff);
    assert_eq!(x.get_secondary_random(), 0x0f0f);
    // 0x1234 & 0x00ff = 0x34 = 52; 0x1234 & 0x0f0f = 0x0204 = 516.
    assert_eq!(x.hash(0x1234), 2);
    assert_eq!(x.secondary_hash(0x1234), 1);
    assert_eq!(x.hash(0xff00), 0);
    assert_eq!(x.secondary_hash(0xf0f0), 0);
}

#[test]
fn cuckoo_places_by_eviction() {
    let mut x = CuckooHashBuilder::<u16>::new().with_hash_capacity(3).build();
    assert_eq!(x.rehash_with(0xffff, 0xffff), Ok(()));
    // 1, 4 and 7 have slot 1 in both tables: two of them fit.
    assert_eq!(x.try_insert(1, 10), Ok(()));
    assert_eq!(x.try_insert(4, 40), Ok(()));
    assert_eq!(x.lookup(1), Ok(10));
    assert_eq!(x.lookup(4), Ok(40));
    assert_eq!(x.try_insert(7, 70), Err(HashTableError::TableFull));
    // The failed placement left the table as it was.
    assert_eq!(x.lookup(1), Ok(10));
    assert_eq!(x.lookup(4), Ok(40));
    assert_eq!(x.lookup(7), Err(HashTableError::NotFound));
    assert_eq!(x.get_primary_random(), 0xffff);
    assert_eq!(x.get_secondary_random(), 0xffff);
    // Another slot is free.
    assert_eq!(x.try_insert(2, 20), Ok(()));
    assert_eq!(x.lookup(2), Ok(20));
}

#[test]
fn cuckoo_eviction_reaches_a_free_slot_further_on() {
    let mut x = CuckooHashBuilder::<u16>::new().with_hash_capacity(4).build();
    // Primary slot: the key's two low bits. Secondary slot: its lowest bit.
    assert_eq!(x.rehash_with(0x0003, 0x0001), Ok(()));
    // 2 and 6: primary slot 2, secondary slot 0. 5: primary 1, secondary 1.
    assert_eq!(x.try_insert(2, 20), Ok(()));
    assert_eq!(x.try_insert(6, 60), Ok(()));
    assert_eq!(x.try_insert(5, 50), Ok(()));
    // 10: primary 2, secondary 0. It evicts 6, which evicts 2, which goes back to
    // primary slot 2 and evicts 10, ...: no free slot is ever reached.
    assert_eq!(x.try_insert(10, 100), Err(HashTableError::TableFull));
    assert_eq!(x.lookup(2), Ok(20));
    assert_eq!(x.lookup(6), Ok(60));
    assert_eq!(x.lookup(5), Ok(50));
    // 9: primary 1, secondary 1. It evicts 5, which has the free secondary slot 1.
    assert_eq!(x.try_insert(9, 90), Ok(()));
    assert_eq!(x.lookup(9), Ok(90));
    assert_eq!(x.lookup(5), Ok(50));
}

#[test]
fn cuckoo_insert_rehashes_when_placement_fails() {
    let mut x = CuckooHashBuilder::<u16>::new().with_hash_capacity(3).build();
    // With both parameters 0 every key has slot 0 in both tables.
    assert_eq!(x.rehash_with(0, 0), Ok(()));
    assert_eq!(x.insert(1, 10), Ok(()));
    assert_eq!(x.insert(2, 20), Ok(()));
    assert_eq!(x.try_insert(3, 30), Err(HashTableError::TableFull));
    assert_eq!(x.insert(3, 30), Ok(()));
    assert_eq!(x.lookup(1), Ok(10));
    assert_eq!(x.lookup(2), Ok(20));
    assert_eq!(x.lookup(3), Ok(30));
}

#[test]
fn cuckoo_insert_of_a_present_key_changes_nothing() {
    let mut x = CuckooHashBuilder::<u16>::new().with_hash_capacity(3).build();
    assert_eq!(x.insert(1, 10), Ok(()));
    let before = (x.get_primary_random(), x.get_secondary_random());
    assert_eq!(x.insert(1, 99), Ok(()));
    assert_eq!(x.try_insert(1, 98), Ok(()));
    assert_eq!(x.lookup(1), Ok(10));
    assert_eq!((x.get_primary_random(), x.get_secondary_random()), before);
}

#[test]
fn cuckoo_delete_of_an_absent_key_is_silent() {
    let mut x = CuckooHashBuilder::<u16>::new().with_hash_capacity(3).build();
    assert_eq!(x.delete(1), Ok(()));
    assert_eq!(x.insert(1, 10), Ok(()));
    assert_eq!(x.delete(2), Ok(()));
    assert_eq!(x.lookup(1), Ok(10));
    assert_eq!(x.delete(1), Ok(()));
    assert_eq!(x.lookup(1), Err(HashTableError::NotFound));
}

#[test]
fn cuckoo_delete_from_the_secondary_table() {
    let mut x = CuckooHashBuilder::<u16>::new().with_hash_capacity(3).build();
    assert_eq!(x.rehash_with(0xffff, 0xffff), Ok(()));
    assert_eq!(x.try_insert(1, 10), Ok(()));
    // 4 takes primary slot 1 and moves 1 to the secondary table.
    assert_eq!(x.try_insert(4, 40), Ok(()));
    assert_eq!(x.delete(1), Ok(()));
    assert_eq!(x.lookup(1), Err(HashTableError::NotFound));
    assert_eq!(x.lookup(4), Ok(40));
    // The secondary slot is free again.
    assert_eq!(x.try_insert(7, 70), Ok(()));
    assert_eq!(x.lookup(4), Ok(40));
    assert_eq!(x.lookup(7), Ok(70));
}

#[test]
fn cuckoo_lookup_of_a_key_never_inserted_is_not_found() {
    let mut x = CuckooHashBuilder::<u16>::new().with_hash_capacity(8).build();
    assert_eq!(x.lookup(0), Err(HashTableError::NotFound));
    assert_eq!(x.insert(1, 10), Ok(()));
    assert_eq!(x.insert(9, 90), Ok(()));
    assert_eq!(x.delete(9), Ok(()));
    assert_eq!(x.lookup(0), Err(HashTableError::NotFound));
    assert_eq!(x.lookup(17), Err(HashTableError::NotFound));
}

#[test]
fn cuckoo_rehash_keeps_every_pair() {
    let mut x = CuckooHashBuilder::<u32>::new().with_hash_capacity(17).build();
    let keys = [3u16, 19, 35, 7, 1000, 65535, 0, 42];
    for key in keys {
        assert_eq!(x.insert(key, u32::from(key) * 3), Ok(()));
    }
    for _ in 0..20 {
        // Whether or not new parameters were found, the pairs are the same.
        let _ = x.rehash();
        for key in keys {
            assert_eq!(x.lookup(key), Ok(u32::from(key) * 3));
        }
        for absent in [1u16, 2, 4, 51, 999] {
            assert_eq!(x.lookup(absent), Err(HashTableError::NotFound));
        }
    }
}

#[test]
fn cuckoo_rehash_with_parameters_that_do_not_fit_changes_nothing() {
    let mut x = CuckooHashBuilder::<u16>::new().with_hash_capacity(4).build();
    assert_eq!(x.rehash_with(0xffff, 0xffff), Ok(()));
    assert_eq!(x.try_insert(1, 10), Ok(()));
    assert_eq!(x.try_insert(2, 20), Ok(()));
    assert_eq!(x.try_insert(3, 30), Ok(()));
    // With both parameters 0 only two pairs can be placed.
    assert_eq!(x.rehash_with(0, 0), Err(HashTableError::TableFull));
    assert_eq!(x.get_primary_random(), 0xffff);
    assert_eq!(x.get_secondary_random(), 0xffff);
    assert_eq!(x.lookup(1), Ok(10));
    assert_eq!(x.lookup(2), Ok(20));
    assert_eq!(x.lookup(3), Ok(30));
    // With these every pair has a slot of its own.
    assert_eq!(x.rehash_with(0x0003, 0), Ok(()));
    assert_eq!(x.get_primary_random(), 0x0003);
    assert_eq!(x.get_secondary_random(), 0);
    assert_eq!(x.lookup(1), Ok(10));
    assert_eq!(x.lookup(2), Ok(20));
    assert_eq!(x.lookup(3), Ok(30));
}

#[test]
fn cuckoo_table_that_cannot_take_a_pair_is_full() {
    // One slot in each table: a third pair fits under no parameters.
    let mut x = CuckooHashBuilder::<u16>::new().with_hash_capacity(1).build();
    assert_eq!(x.insert(1, 10), Ok(()));
    assert_eq!(x.insert(2, 20), Ok(()));
    assert_eq!(x.insert(3, 30), Err(HashTableError::TableFull));
    assert_eq!(x.lookup(1), Ok(10));
    assert_eq!(x.lookup(2), Ok(20));
    assert_eq!(x.lookup(3), Err(HashTableError::NotFound));
    assert_eq!(x.rehash(), Ok(()));
    assert_eq!(x.lookup(1), Ok(10));
    assert_eq!(x.lookup(2), Ok(20));
}

#[test]
fn cuckoo_new_parameters_for_an_empty_table() {
    let mut x = CuckooHashBuilder::<u16>::new().with_hash_capacity(3).build();
    x.update_primary_random();
    x.update_secondary_random();
    assert_eq!(x.get_hash_capacity(), 3);
    let primary = x.get_primary_random();
    let secondary = x.get_secondary_random();
    assert_eq!(x.hash(0xabcd), (0xabcd & primary) % 3);
    assert_eq!(x.secondary_hash(0xabcd), (0xabcd & secondary) % 3);
    assert_eq!(x.insert(1, 10), Ok(()));
    assert_eq!(x.lookup(1), Ok(10));
}

#[test]
fn cuckoo_initialize_appends_empty_slots() {
    let mut x = CuckooHashBuilder::<u16>::new().with_hash_capacity(2).build();
    assert_eq!(x.rehash_with(0xffff, 0xffff), Ok(()));
    assert_eq!(x.try_insert(0, 5), Ok(()));
    assert_eq!(x.try_insert(1, 6), Ok(()));
    x.initialize_hash_tables();
    // The slots that were there are as they were.
    assert_eq!(x.get_hash_capacity(), 2);
    assert_eq!(x.lookup(0), Ok(5));
    assert_eq!(x.lookup(1), Ok(6));
    assert_eq!(x.lookup(2), Err(HashTableError::NotFound));
}

#[test]
fn cuckoo_keys_that_share_both_slots_under_every_parameter() {
    // With 16 slots only the low four bits of a masked key count, and 3, 19
    // and 35 agree in them: whatever the parameters, the three keys have the
    // same slot in each table, and only two of them can be held.
    let mut x = CuckooHashBuilder::<u16>::new().with_hash_capacity(16).build();
    assert_eq!(x.insert(3, 30), Ok(()));
    assert_eq!(x.insert(19, 190), Ok(()));
    assert_eq!(x.insert(35, 350), Err(HashTableError::TableFull));
    assert_eq!(x.lookup(3), Ok(30));
    assert_eq!(x.lookup(19), Ok(190));
    assert_eq!(x.lookup(35), Err(HashTableError::NotFound));
    assert_eq!(x.insert(4, 40), Ok(()));
}

#[test]
fn cuckoo_insert_with_rehashes_under_the_given_parameters() {
    let mut x = CuckooHashBuilder::<u16>::new().with_hash_capacity(3).build();
    assert_eq!(x.rehash_with(0, 0), Ok(()));
    // No rehash is needed while a slot 0 is free.
    assert_eq!(x.insert_with(1, 10, 0xffff, 0xffff), Ok(()));
    assert_eq!(x.insert_with(2, 20, 0xffff, 0xffff), Ok(()));
    assert_eq!((x.get_primary_random(), x.get_secondary_random()), (0, 0));
    // A present key is left alone.
    assert_eq!(x.insert_with(2, 21, 0xffff, 0xffff), Ok(()));
    assert_eq!(x.lookup(2), Ok(20));
    assert_eq!((x.get_primary_random(), x.get_secondary_random()), (0, 0));
    // The third pair needs the rehash.
    assert_eq!(x.insert_with(3, 30, 0xffff, 0xffff), Ok(()));
    assert_eq!((x.get_primary_random(), x.get_secondary_random()), (0xffff, 0xffff));
    assert_eq!(x.lookup(1), Ok(10));
    assert_eq!(x.lookup(2), Ok(20));
    assert_eq!(x.lookup(3), Ok(30));
    assert_eq!(x.hash(3), 0);
}

#[test]
fn cuckoo_insert_with_parameters_that_do_not_fit_changes_nothing() {
    let mut x = CuckooHashBuilder::<u16>::new().with_hash_capacity(3).build();
    assert_eq!(x.rehash_with(0xffff, 0xffff), Ok(()));
    assert_eq!(x.try_insert(1, 10), Ok(()));
    assert_eq!(x.try_insert(4, 40), Ok(()));
    // 7 has the slots of 1 and 4, and under the parameters 0 and 0 too.
    assert_eq!(x.insert_with(7, 70, 0, 0), Err(HashTableError::TableFull));
    assert_eq!((x.get_primary_random(), x.get_secondary_random()), (0xffff, 0xffff));
    assert_eq!(x.lookup(1), Ok(10));
    assert_eq!(x.lookup(4), Ok(40));
    assert_eq!(x.lookup(7), Err(HashTableError::NotFound));
    // Masked with 6 the keys 1, 4 and 7 become 0, 4 and 6, with the slots 0, 1 and 0.
    assert_eq!(x.insert_with(7, 70, 6, 0xffff), Ok(()));
    assert_eq!((x.get_primary_random(), x.get_secondary_random()), (6, 0xffff));
    assert_eq!(x.lookup(1), Ok(10));
    assert_eq!(x.lookup(4), Ok(40));
    assert_eq!(x.lookup(7), Ok(70));
}

#[test]
fn cuckoo_set_parameters_of_an_empty_table() {
    let mut x = CuckooHashBuilder::<u16>::new().with_hash_capacity(5).build();
    x.set_primary_random(0x00f0);
    assert_eq!(x.get_primary_random(), 0x00f0);
    x.set_secondary_random(0x0003);
    assert_eq!(x.get_secondary_random(), 0x0003);
    assert_eq!(x.get_primary_random(), 0x00f0);
    assert_eq!(x.get_hash_capacity(), 5);
    // 0x1234 & 0x00f0 = 0x30 = 48; 0x1234 & 0x0003 = 0.
    assert_eq!(x.hash(0x1234), 3);
    assert_eq!(x.secondary_hash(0x1234), 0);
    assert_eq!(x.lookup(0x1234), Err(HashTableError::NotFound));
    assert_eq!(x.try_insert(0x1234, 7), Ok(()));
    assert_eq!(x.lookup(0x1234), Ok(7));
}

#[test]
fn cuckoo_set_parameter_leaves_the_other_alone() {
    let mut x = CuckooHashBuilder::<u16>::new().with_hash_capacity(3).build();
    let secondary = x.get_secondary_random();
    x.set_primary_random(9);
    assert_eq!(x.get_secondary_random(), secondary);
    assert_eq!(x.get_primary_random(), 9);
    x.set_secondary_random(12);
    assert_eq!(x.get_primary_random(), 9);
    assert_eq!(x.get_secondary_random(), 12);
    x.update_primary_random();
    assert_eq!(x.get_secondary_random(), 12);
    x.set_secondary_random(13);
    let primary = x.get_primary_random();
    x.update_secondary_random();
    assert_eq!(x.get_primary_random(), primary);
}
