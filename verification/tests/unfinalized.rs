use state_db::{ChangeSet, CommitSet, MemoryDb, UnfinalizedOverlay, H256};

fn random_hash() -> H256 {
    H256 { w0: rand::random(), w1: rand::random(), w2: rand::random(), w3: rand::random() }
}

fn make_changeset(inserted: &[u64], deleted: &[u64]) -> ChangeSet<H256> {
    ChangeSet {
        inserted: inserted.iter().map(|v| (H256::from(*v), H256::from(*v).to_vec())).collect(),
        deleted: deleted.iter().map(|v| H256::from(*v)).collect(),
    }
}

fn make_commit(inserted: &[u64], deleted: &[u64]) -> CommitSet<H256> {
    CommitSet { data: make_changeset(inserted, deleted), meta: ChangeSet::default() }
}

fn make_db(inserted: &[u64]) -> MemoryDb<H256> {
    let mut db = MemoryDb::new();
    db.commit(&make_commit(inserted, &[]));
    db
}

fn contains(overlay: &UnfinalizedOverlay<H256, H256>, key: u64) -> bool {
    overlay.get(&H256::from(key)) == Some(H256::from(key).to_vec())
}

/// Inserts where the window allows it, and panics where it does not.
fn insert(
    overlay: &mut UnfinalizedOverlay<H256, H256>,
    hash: &H256,
    number: u64,
    parent_hash: &H256,
    changeset: ChangeSet<H256>,
) -> CommitSet<H256> {
    assert!(overlay.can_insert(hash, number, parent_hash));
    overlay.insert(hash, number, parent_hash, changeset)
}

/// Finalizes where the window allows it, and panics where it does not.
fn finalize(overlay: &mut UnfinalizedOverlay<H256, H256>, hash: &H256) -> CommitSet<H256> {
    assert!(overlay.can_finalize(hash), "attempting to finalize unknown block");
    overlay.finalize(hash)
}

#[test]
fn created_from_empty_db() {
    let db = make_db(&[]);
    let overlay: UnfinalizedOverlay<H256, H256> = UnfinalizedOverlay::new(&db).unwrap();
    assert_eq!(overlay.last_finalized(), None);
    assert_eq!(overlay.levels_len(), 0);
    assert_eq!(overlay.parents_len(), 0);
}

#[test]
#[should_panic]
fn finalize_empty_panics() {
    let db = make_db(&[]);
    let mut overlay = UnfinalizedOverlay::<H256, H256>::new(&db).unwrap();
    finalize(&mut overlay, &H256::default());
}

#[test]
#[should_panic]
fn insert_ahead_panics() {
    let db = make_db(&[]);
    let h1 = random_hash();
    let h2 = random_hash();
    let mut overlay = UnfinalizedOverlay::<H256, H256>::new(&db).unwrap();
    insert(&mut overlay, &h1, 2, &H256::default(), ChangeSet::default());
    insert(&mut overlay, &h2, 1, &h1, ChangeSet::default());
}

#[test]
#[should_panic]
fn insert_behind_panics() {
    let h1 = random_hash();
    let h2 = random_hash();
    let db = make_db(&[]);
    let mut overlay = UnfinalizedOverlay::<H256, H256>::new(&db).unwrap();
    insert(&mut overlay, &h1, 1, &H256::default(), ChangeSet::default());
    insert(&mut overlay, &h2, 3, &h1, ChangeSet::default());
}

#[test]
#[should_panic]
fn insert_unknown_parent_panics() {
    let db = make_db(&[]);
    let h1 = random_hash();
    let h2 = random_hash();
    let mut overlay = UnfinalizedOverlay::<H256, H256>::new(&db).unwrap();
    insert(&mut overlay, &h1, 1, &H256::default(), ChangeSet::default());
    insert(&mut overlay, &h2, 2, &H256::default(), ChangeSet::default());
}

#[test]
#[should_panic]
fn finalize_unknown_panics() {
    let h1 = random_hash();
    let h2 = random_hash();
    let db = make_db(&[]);
    let mut overlay = UnfinalizedOverlay::<H256, H256>::new(&db).unwrap();
    insert(&mut overlay, &h1, 1, &H256::default(), ChangeSet::default());
    finalize(&mut overlay, &h2);
}

#[test]
fn insert_finalize_one() {
    let h1 = random_hash();
    let mut db = make_db(&[1, 2]);
    let mut overlay = UnfinalizedOverlay::<H256, H256>::new(&db).unwrap();
    let changeset = make_changeset(&[3, 4], &[2]);
    let insertion = overlay.insert(&h1, 1, &H256::default(), changeset.clone());
    assert_eq!(insertion.data.inserted.len(), 0);
    assert_eq!(insertion.data.deleted.len(), 0);
    assert_eq!(insertion.meta.inserted.len(), 2);
    assert_eq!(insertion.meta.deleted.len(), 0);
    db.commit(&insertion);
    let finalization = overlay.finalize(&h1);
    assert_eq!(finalization.data.inserted.len(), changeset.inserted.len());
    assert_eq!(finalization.data.deleted.len(), changeset.deleted.len());
    assert_eq!(finalization.meta.inserted.len(), 1);
    assert_eq!(finalization.meta.deleted.len(), 1);
    db.commit(&finalization);
    assert!(db.data_eq(&make_db(&[1, 3, 4])));
}

#[test]
fn restore_from_journal() {
    let h1 = random_hash();
    let h2 = random_hash();
    let mut db = make_db(&[1, 2]);
    let mut overlay = UnfinalizedOverlay::<H256, H256>::new(&db).unwrap();
    db.commit(&overlay.insert(&h1, 10, &H256::default(), make_changeset(&[3, 4], &[2])));
    db.commit(&overlay.insert(&h2, 11, &h1, make_changeset(&[5], &[3])));
    assert_eq!(db.meta_len(), 3);

    let overlay2 = UnfinalizedOverlay::<H256, H256>::new(&db).unwrap();
    assert!(overlay.same_as(&overlay2));
    assert_eq!(overlay.levels_len(), overlay2.levels_len());
    assert_eq!(overlay.parents_len(), overlay2.parents_len());
    assert_eq!(overlay.last_finalized(), overlay2.last_finalized());
}

#[test]
fn insert_finalize_two() {
    let h1 = random_hash();
    let h2 = random_hash();
    let mut db = make_db(&[1, 2, 3, 4]);
    let mut overlay = UnfinalizedOverlay::<H256, H256>::new(&db).unwrap();
    let changeset1 = make_changeset(&[5, 6], &[2]);
    let changeset2 = make_changeset(&[7, 8], &[5, 3]);
    db.commit(&overlay.insert(&h1, 1, &H256::default(), changeset1));
    assert!(contains(&overlay, 5));
    db.commit(&overlay.insert(&h2, 2, &h1, changeset2));
    assert!(contains(&overlay, 7));
    assert!(contains(&overlay, 5));
    assert_eq!(overlay.levels_len(), 2);
    assert_eq!(overlay.parents_len(), 2);
    db.commit(&overlay.finalize(&h1));
    assert_eq!(overlay.levels_len(), 1);
    assert_eq!(overlay.parents_len(), 1);
    assert!(!contains(&overlay, 5));
    assert!(contains(&overlay, 7));
    db.commit(&overlay.finalize(&h2));
    assert_eq!(overlay.levels_len(), 0);
    assert_eq!(overlay.parents_len(), 0);
    assert!(db.data_eq(&make_db(&[1, 4, 6, 7, 8])));
}

#[test]
fn complex_tree() {
    let mut db = make_db(&[]);

    // - 1 - 1_1 - 1_1_1
    //     \ 1_2 - 1_2_1
    //           \ 1_2_2
    //           \ 1_2_3
    //
    // - 2 - 2_1 - 2_1_1
    //     \ 2_2
    //
    // 1_2_2 is the winner

    let (h_1, c_1) = (random_hash(), make_changeset(&[1], &[]));
    let (h_2, c_2) = (random_hash(), make_changeset(&[2], &[]));

    let (h_1_1, c_1_1) = (random_hash(), make_changeset(&[11], &[]));
    let (h_1_2, c_1_2) = (random_hash(), make_changeset(&[12], &[]));
    let (h_2_1, c_2_1) = (random_hash(), make_changeset(&[21], &[]));
    let (h_2_2, c_2_2) = (random_hash(), make_changeset(&[22], &[]));

    let (h_1_1_1, c_1_1_1) = (random_hash(), make_changeset(&[111], &[]));
    let (h_1_2_1, c_1_2_1) = (random_hash(), make_changeset(&[121], &[]));
    let (h_1_2_2, c_1_2_2) = (random_hash(), make_changeset(&[122], &[]));
    let (h_1_2_3, c_1_2_3) = (random_hash(), make_changeset(&[123], &[]));
    let (h_2_1_1, c_2_1_1) = (random_hash(), make_changeset(&[211], &[]));

    let mut overlay = UnfinalizedOverlay::<H256, H256>::new(&db).unwrap();
    db.commit(&overlay.insert(&h_1, 1, &H256::default(), c_1));

    db.commit(&overlay.insert(&h_1_1, 2, &h_1, c_1_1));
    db.commit(&overlay.insert(&h_1_2, 2, &h_1, c_1_2));

    db.commit(&overlay.insert(&h_2, 1, &H256::default(), c_2));

    db.commit(&overlay.insert(&h_2_1, 2, &h_2, c_2_1));
    db.commit(&overlay.insert(&h_2_2, 2, &h_2, c_2_2));

    db.commit(&overlay.insert(&h_1_1_1, 3, &h_1_1, c_1_1_1));
    db.commit(&overlay.insert(&h_1_2_1, 3, &h_1_2, c_1_2_1));
    db.commit(&overlay.insert(&h_1_2_2, 3, &h_1_2, c_1_2_2));
    db.commit(&overlay.insert(&h_1_2_3, 3, &h_1_2, c_1_2_3));
    db.commit(&overlay.insert(&h_2_1_1, 3, &h_2_1, c_2_1_1));

    assert!(contains(&overlay, 2));
    assert!(contains(&overlay, 11));
    assert!(contains(&overlay, 21));
    assert!(contains(&overlay, 111));
    assert!(contains(&overlay, 122));
    assert!(contains(&overlay, 211));
    assert_eq!(overlay.levels_len(), 3);
    assert_eq!(overlay.parents_len(), 11);
    assert_eq!(overlay.last_finalized(), Some((H256::default(), 0)));

    // check if restoration from journal results in the same tree
    let overlay2 = UnfinalizedOverlay::<H256, H256>::new(&db).unwrap();
    assert!(overlay.same_as(&overlay2));
    assert_eq!(overlay.levels_len(), overlay2.levels_len());
    assert_eq!(overlay.parents_len(), overlay2.parents_len());
    assert_eq!(overlay.last_finalized(), overlay2.last_finalized());

    // finalize 1. 2 and all its children should be discarded
    db.commit(&overlay.finalize(&h_1));
    assert_eq!(overlay.levels_len(), 2);
    assert_eq!(overlay.parents_len(), 6);
    assert!(!contains(&overlay, 1));
    assert!(!contains(&overlay, 2));
    assert!(!contains(&overlay, 21));
    assert!(!contains(&overlay, 22));
    assert!(!contains(&overlay, 211));
    assert!(contains(&overlay, 111));

    // finalize 1_2. 1_1 and all its children should be discarded
    db.commit(&overlay.finalize(&h_1_2));
    assert_eq!(overlay.levels_len(), 1);
    assert_eq!(overlay.parents_len(), 3);
    assert!(!contains(&overlay, 11));
    assert!(!contains(&overlay, 111));
    assert!(contains(&overlay, 121));
    assert!(contains(&overlay, 122));
    assert!(contains(&overlay, 123));

    // finalize 1_2_2
    db.commit(&overlay.finalize(&h_1_2_2));
    assert_eq!(overlay.levels_len(), 0);
    assert_eq!(overlay.parents_len(), 0);
    assert!(db.data_eq(&make_db(&[1, 12, 122])));
    assert_eq!(overlay.last_finalized(), Some((h_1_2_2, 3)));
}
