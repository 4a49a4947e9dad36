use state_db::linear_map::LinearMap;
use state_db::{ChangeSet, CommitSet, MemoryDb, MetaDb, H256};

fn h(n: u64) -> H256 {
    H256::from(n)
}

#[test]
fn h256_from_number_is_the_lowest_limb() {
    assert_eq!(h(5), H256 { w0: 5, w1: 0, w2: 0, w3: 0 });
    assert_eq!(H256::from_low_u64(5), h(5));
    assert_eq!(H256::default(), h(0));
}

#[test]
fn h256_bytes_are_the_limbs_lowest_first() {
    let value = H256 { w0: 1, w1: 0x0203, w2: 0, w3: u64::MAX };
    let bytes = value.to_vec();
    assert_eq!(bytes.len(), 32);
    assert_eq!(&bytes[..8], &[1, 0, 0, 0, 0, 0, 0, 0]);
    assert_eq!(&bytes[8..16], &[3, 2, 0, 0, 0, 0, 0, 0]);
    assert_eq!(&bytes[16..24], &[0; 8]);
    assert_eq!(&bytes[24..], &[255; 8]);
}

#[test]
fn h256_round_trips_through_its_image() {
    let value = H256 { w0: 1, w1: 2, w2: 3, w3: 4 };
    let bytes = state_db::hash::Hash::to_bytes(&value);
    assert_eq!(bytes, value.to_vec());
    let back: Option<H256> = state_db::hash::Hash::from_bytes(&bytes);
    assert_eq!(back, Some(value));
}

#[test]
fn h256_is_not_read_from_another_length() {
    let short: Option<H256> = state_db::hash::Hash::from_bytes(&[0; 31]);
    assert_eq!(short, None);
    let long: Option<H256> = state_db::hash::Hash::from_bytes(&[0; 33]);
    assert_eq!(long, None);
    let none: Option<H256> = state_db::hash::Hash::from_bytes(&[]);
    assert_eq!(none, None);
}

#[test]
fn h256_same_and_duplicate() {
    let a = H256 { w0: 1, w1: 2, w2: 3, w3: 4 };
    let b = H256 { w0: 1, w1: 2, w2: 3, w3: 5 };
    assert!(state_db::hash::Hash::same(&a, &a));
    assert!(!state_db::hash::Hash::same(&a, &b));
    assert_eq!(state_db::hash::Hash::duplicate(&a), a);
}

#[test]
fn byte_strings_same_and_duplicate() {
    let a = vec![1u8, 2, 3];
    assert!(state_db::hash::Hash::same(&a, &vec![1u8, 2, 3]));
    assert!(!state_db::hash::Hash::same(&a, &vec![1u8, 2]));
    assert!(!state_db::hash::Hash::same(&a, &vec![1u8, 2, 4]));
    assert_eq!(state_db::hash::Hash::duplicate(&a), a);
    assert_eq!(state_db::hash::Hash::to_bytes(&a), a);
}

#[test]
fn map_keeps_the_place_of_a_key_that_is_set_again() {
    let mut map: LinearMap<H256, Vec<u8>> = LinearMap::new();
    map.insert(h(1), vec![1]);
    map.insert(h(2), vec![2]);
    map.insert(h(1), vec![3]);
    assert_eq!(map.len(), 2);
    assert_eq!(map.get(&h(1)), Some(&vec![3u8]));
    assert_eq!(map.into_vec(), vec![(h(1), vec![3u8]), (h(2), vec![2u8])]);
}

#[test]
fn map_remove_says_whether_it_held_the_key() {
    let mut map: LinearMap<H256, Vec<u8>> = LinearMap::new();
    assert!(map.is_empty());
    map.insert(h(1), vec![1]);
    map.insert(h(2), vec![2]);
    assert!(!map.is_empty());
    assert!(map.contains_key(&h(1)));
    assert!(map.remove(&h(1)));
    assert!(!map.remove(&h(1)));
    assert!(!map.contains_key(&h(1)));
    assert_eq!(map.get(&h(1)), None);
    assert_eq!(map.len(), 1);
    assert_eq!(map.into_vec(), vec![(h(2), vec![2u8])]);
}

#[test]
fn maps_are_the_same_whatever_the_order() {
    let mut a: LinearMap<H256, Vec<u8>> = LinearMap::new();
    let mut b: LinearMap<H256, Vec<u8>> = LinearMap::new();
    a.insert(h(1), vec![1]);
    a.insert(h(2), vec![2]);
    b.insert(h(2), vec![2]);
    b.insert(h(1), vec![1]);
    assert!(a.same_as(&b));
    assert!(!a.same_entries(&b));
    b.insert(h(1), vec![9]);
    assert!(!a.same_as(&b));
    b.insert(h(1), vec![1]);
    b.insert(h(3), vec![]);
    assert!(!a.same_as(&b));
}

#[test]
fn store_writes_inserts_then_deletes() {
    let mut db: MemoryDb<H256> = MemoryDb::new();
    let commit = CommitSet {
        data: ChangeSet {
            inserted: vec![(h(1), vec![1u8]), (h(2), vec![2u8]), (h(1), vec![3u8])],
            deleted: vec![h(2), h(7)],
        },
        meta: ChangeSet {
            inserted: vec![(vec![1u8], vec![10u8]), (vec![2u8], vec![20u8])],
            deleted: vec![vec![1u8]],
        },
    };
    db.commit(&commit);
    assert_eq!(db.get(&h(1)), Some(vec![3u8]));
    assert_eq!(db.get(&h(2)), None);
    assert_eq!(db.data_len(), 1);
    assert_eq!(db.meta_len(), 1);
    assert_eq!(db.get_meta(&[2]), Ok(Some(vec![20u8])));
    assert_eq!(db.get_meta(&[1]), Ok(None));
}

#[test]
fn store_deletes_what_the_same_commit_inserts() {
    let mut db: MemoryDb<H256> = MemoryDb::new();
    let commit = CommitSet {
        data: ChangeSet { inserted: vec![(h(1), vec![1u8])], deleted: vec![h(1)] },
        meta: ChangeSet::default(),
    };
    db.commit(&commit);
    assert_eq!(db.get(&h(1)), None);
    assert_eq!(db.data_len(), 0);
}

#[test]
fn stores_with_the_same_data_are_equal() {
    let mut a: MemoryDb<H256> = MemoryDb::new();
    let mut b: MemoryDb<H256> = MemoryDb::new();
    assert!(a.data_eq(&b));
    a.commit(&CommitSet {
        data: ChangeSet { inserted: vec![(h(1), vec![1u8]), (h(2), vec![2u8])], deleted: vec![] },
        meta: ChangeSet { inserted: vec![(vec![1u8], vec![])], deleted: vec![] },
    });
    assert!(!a.data_eq(&b));
    b.commit(&CommitSet {
        data: ChangeSet { inserted: vec![(h(2), vec![2u8]), (h(1), vec![1u8])], deleted: vec![] },
        meta: ChangeSet::default(),
    });
    assert!(a.data_eq(&b));
}

#[test]
fn empty_change_sets_are_empty() {
    let changes: ChangeSet<H256> = ChangeSet::default();
    assert!(changes.inserted.is_empty() && changes.deleted.is_empty());
    let commit: CommitSet<H256> = CommitSet::default();
    assert!(commit.data.inserted.is_empty() && commit.data.deleted.is_empty());
    assert!(commit.meta.inserted.is_empty() && commit.meta.deleted.is_empty());
    let commit: CommitSet<H256> = CommitSet::new();
    assert!(commit.meta.inserted.is_empty());
}
