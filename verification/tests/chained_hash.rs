use hash_tables::chained_hash::ChainedHashBuilder;
use hash_tables::hash_table::{HashFn, HashTable, HashTableError};

#[test]
fn can_create_basic_hash() {
    let mut x = ChainedHashBuilder::<u16>::new().with_capacity(3).build();
    assert_eq!(x.get_capacity(), 3);
    let mut item = 10;
    assert!(x.insert(1, item).is_ok());
    item += 10;
    assert!(x.insert(2, item).is_ok());
    item += 10;
    assert!(x.insert(3, item).is_ok());
    item += 10;
    assert_eq!(x.insert(4, item).is_ok(), true);
}

#[test]
fn can_create_basic_hash_and_search() {
    let mut x = ChainedHashBuilder::<u16>::new().with_capacity(3).build();
    assert_eq!(x.get_capacity(), 3);
    let mut item = 10;
    assert!(x.insert(1, item).is_ok());
    item += 10;
    assert!(x.insert(2, item).is_ok());
    item += 10;
    assert!(x.insert(3, item).is_ok());
    item += 10;
    assert!(x.insert(4, item).is_ok());
    item += 10;
    assert!(x.insert(5, item).is_ok());
    item += 10;
    assert!(x.insert(6, item).is_ok());

    let ret = x.lookup(1);
    assert!(ret.is_ok());
    assert_eq!(ret.unwrap(), 10);
    let ret = x.lookup(2);
    assert!(ret.is_ok());
    assert_eq!(ret.unwrap(), 20);
    let ret = x.lookup(3);
    assert!(ret.is_ok());
    assert_eq!(ret.unwrap(), 30);
    let ret = x.lookup(4);
    assert!(ret.is_ok());
    assert_eq!(ret.unwrap(), 40);
    let ret = x.lookup(5);
    assert!(ret.is_ok());
    assert_eq!(ret.unwrap(), 50);
    let ret = x.lookup(6);
    assert!(ret.is_ok());
    assert_eq!(ret.unwrap(), 60);
    let ret = x.lookup(17);
    assert_eq!(ret.is_ok(), false);
}

#[test]
fn can_create_basic_hash_and_delete() {
    let mut x = ChainedHashBuilder::<u16>::new().with_capacity(3).build();
    assert_eq!(x.get_capacity(), 3);
    let mut item = 10;
    assert!(x.insert(1, item).is_ok());
    item += 10;
    assert!(x.insert(2, item).is_ok());
    item += 10;
    assert!(x.insert(3, item).is_ok());
    item += 10;
    assert!(x.insert(4, item).is_ok());
    item += 10;
    assert!(x.insert(5, item).is_ok());
    item += 10;
    assert!(x.insert(6, item).is_ok());

    let ret = x.lookup(1);
    assert!(ret.is_ok());
    assert_eq!(ret.unwrap(), 10);
    let ret = x.lookup(2);
    assert!(ret.is_ok());
    assert_eq!(ret.unwrap(), 20);
    let ret = x.lookup(3);
    assert!(ret.is_ok());
    assert_eq!(ret.unwrap(), 30);
    let ret = x.lookup(4);
    assert!(ret.is_ok());
    assert_eq!(ret.unwrap(), 40);
    let ret = x.lookup(5);
    assert!(ret.is_ok());
    assert_eq!(ret.unwrap(), 50);
    let ret = x.lookup(6);
    assert!(ret.is_ok());
    assert_eq!(ret.unwrap(), 60);

    let ret = x.delete(1);
    assert!(ret.is_ok());
    let ret = x.lookup(1);
    assert_eq!(ret.is_ok(), false);
    let ret = x.delete(2);
    assert!(ret.is_ok());
    let ret = x.lookup(2);
    assert_eq!(ret.is_ok(), false);
    let ret = x.delete(3);
    assert!(ret.is_ok());
    let ret = x.lookup(3);
    assert_eq!(ret.is_ok(), false);
    let ret = x.delete(4);
    assert!(ret.is_ok());
    let ret = x.lookup(4);
    assert_eq!(ret.is_ok(), false);
    let ret = x.delete(5);
    assert!(ret.is_ok());
    let ret = x.lookup(5);
    assert_eq!(ret.is_ok(), false);
    let ret = x.delete(6);
    assert!(ret.is_ok());
    let ret = x.lookup(6);
    assert_eq!(ret.is_ok(), false);

    // see if we can insert them again

    let mut item = 100;
    assert!(x.insert(1, item).is_ok());
    item += 100;
    assert!(x.insert(2, item).is_ok());
    item += 100;
    assert!(x.insert(3, item).is_ok());

    let ret = x.lookup(1);
    assert!(ret.is_ok());
    assert_eq!(ret.unwrap(), 100);
    let ret = x.lookup(2);
    assert!(ret.is_ok());
    assert_eq!(ret.unwrap(), 200);
    let ret = x.lookup(3);
    assert!(ret.is_ok());
    assert_eq!(ret.unwrap(), 300);

    let ret = x.delete(1);
    assert!(ret.is_ok());
    let ret = x.lookup(1);
    assert_eq!(ret.is_ok(), false);
    let ret = x.delete(2);
    assert!(ret.is_ok());
    let ret = x.lookup(2);
    assert_eq!(ret.is_ok(), false);
    let ret = x.delete(3);
    assert!(ret.is_ok());
    let ret = x.lookup(3);
    assert_eq!(ret.is_ok(), false);
}

#[test]
fn chained_insert_never_fails() {
    let mut x = ChainedHashBuilder::<u16>::new().with_capacity(1).build();
    for key in 0..50u16 {
        assert_eq!(x.insert(key, key * 2), Ok(()));
    }
    for key in 0..50u16 {
        assert_eq!(x.lookup(key), Ok(key * 2));
    }
}

#[test]
fn chained_same_key_twice_shadows_and_delete_uncovers() {
    let mut x = ChainedHashBuilder::<u16>::new().with_capacity(3).build();
    assert_eq!(x.insert(5, 50), Ok(()));
    assert_eq!(x.insert(5, 51), Ok(()));
    assert_eq!(x.lookup(5), Ok(51));
    assert_eq!(x.delete(5), Ok(()));
    assert_eq!(x.lookup(5), Ok(50));
    assert_eq!(x.delete(5), Ok(()));
    assert_eq!(x.lookup(5), Err(HashTableError::NotFound));
    assert_eq!(x.delete(5), Err(HashTableError::NotFound));
}

#[test]
fn chained_delete_in_the_middle_of_a_chain() {
    let mut x = ChainedHashBuilder::<u16>::new().with_capacity(3).build();
    assert_eq!(x.insert(1, 10), Ok(()));
    assert_eq!(x.insert(4, 40), Ok(()));
    assert_eq!(x.insert(7, 70), Ok(()));
    assert_eq!(x.delete(4), Ok(()));
    assert_eq!(x.lookup(7), Ok(70));
    assert_eq!(x.lookup(1), Ok(10));
    assert_eq!(x.lookup(4), Err(HashTableError::NotFound));
    // The oldest pair, at the end of the chain.
    assert_eq!(x.delete(1), Ok(()));
    assert_eq!(x.lookup(7), Ok(70));
    assert_eq!(x.lookup(1), Err(HashTableError::NotFound));
}

#[test]
fn chained_delete_of_the_head_keeps_the_rest() {
    let mut x = ChainedHashBuilder::<u16>::new().with_capacity(3).build();
    assert_eq!(x.insert(1, 10), Ok(()));
    assert_eq!(x.insert(4, 40), Ok(()));
    assert_eq!(x.insert(7, 70), Ok(()));
    assert_eq!(x.delete(7), Ok(()));
    assert_eq!(x.lookup(4), Ok(40));
    assert_eq!(x.lookup(1), Ok(10));
}

#[test]
fn chained_delete_of_an_absent_key_is_not_found() {
    let mut x = ChainedHashBuilder::<u16>::new().with_capacity(3).build();
    assert_eq!(x.delete(2), Err(HashTableError::NotFound));
    assert_eq!(x.insert(2, 20), Ok(()));
    assert_eq!(x.delete(5), Err(HashTableError::NotFound));
    assert_eq!(x.lookup(2), Ok(20));
}

#[test]
fn chained_lookup_of_a_key_never_inserted_is_not_found() {
    let mut x = ChainedHashBuilder::<u16>::new().with_capacity(4).build();
    assert_eq!(x.lookup(6), Err(HashTableError::NotFound));
    assert_eq!(x.insert(2, 20), Ok(()));
    assert_eq!(x.insert(10, 100), Ok(()));
    assert_eq!(x.delete(2), Ok(()));
    assert_eq!(x.lookup(6), Err(HashTableError::NotFound));
}

#[test]
fn chained_hash_is_the_key_modulo_the_capacity() {
    let x = ChainedHashBuilder::<u16>::new().with_capacity(10).build();
    assert_eq!(x.hash(9), 9);
    assert_eq!(x.hash(10), 0);
    assert_eq!(x.hash(12345), 5);
}

#[test]
fn chain_is_walked_newest_first() {
    let mut x = ChainedHashBuilder::<u16>::new().with_capacity(3).build();
    assert_eq!(x.insert(1, 10), Ok(()));
    assert_eq!(x.insert(2, 20), Ok(()));
    assert_eq!(x.insert(4, 40), Ok(()));
    assert_eq!(x.insert(7, 70), Ok(()));
    let mut walk = x.chain(1).iter();
    let mut seen: Vec<(u16, u16)> = Vec::new();
    while let Some(link) = walk.next() {
        let node = link.as_ref().unwrap();
        seen.push((node.entry().key, **node.entry().data.as_ref().unwrap()));
    }
    assert_eq!(seen, vec![(7, 70), (4, 40), (1, 10)]);
    // At the end the iterator stays at the end.
    assert!(walk.next().is_none());
    assert!(walk.next().is_none());
}

#[test]
fn empty_chain_has_nothing_to_walk() {
    let x = ChainedHashBuilder::<u16>::new().with_capacity(3).build();
    let mut walk = x.chain(2).iter();
    assert!(walk.next().is_none());
}
