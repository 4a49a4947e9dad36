use state_db::journal::{encode_pointer, to_journal_key, to_last_finalized_key, JournalRecord};
use state_db::{ChangeSet, CommitSet, Error, MemoryDb, MetaDb, UnfinalizedOverlay, H256};

type Window = UnfinalizedOverlay<H256, H256>;

fn h(n: u64) -> H256 {
    H256::from(n)
}

/// A block hash that is no key of the tests.
fn block(n: u64) -> H256 {
    H256 { w0: n, w1: 1, w2: 0, w3: 0 }
}

fn changes(inserted: &[(u64, u8)], deleted: &[u64]) -> ChangeSet<H256> {
    ChangeSet {
        inserted: inserted.iter().map(|(k, v)| (h(*k), vec![*v])).collect(),
        deleted: deleted.iter().map(|k| h(*k)).collect(),
    }
}

fn empty_window() -> Window {
    Window::new(&MemoryDb::<H256>::new()).unwrap()
}

fn meta_store(entries: Vec<(Vec<u8>, Vec<u8>)>) -> MemoryDb<H256> {
    let mut db = MemoryDb::new();
    db.commit(&CommitSet {
        data: ChangeSet::default(),
        meta: ChangeSet { inserted: entries, deleted: vec![] },
    });
    db
}

fn record(hash: H256, parent: H256) -> Vec<u8> {
    JournalRecord::<H256, H256> { hash, parent_hash: parent, inserted: vec![], deleted: vec![] }
        .encode()
}

/// A store that does not answer.
struct Broken;

impl MetaDb for Broken {
    type Error = &'static str;

    fn get_meta(&self, _key: &[u8]) -> Result<Option<Vec<u8>>, &'static str> {
        Err("no answer")
    }
}

/// A store that answers for the pointer and for nothing else.
struct HalfBroken;

impl MetaDb for HalfBroken {
    type Error = &'static str;

    fn get_meta(&self, key: &[u8]) -> Result<Option<Vec<u8>>, &'static str> {
        if key == &to_last_finalized_key()[..] {
            Ok(Some(encode_pointer(&h(0), 0)))
        } else {
            Err("no answer")
        }
    }
}

// ---------------------------------------------------------------- construction

#[test]
fn empty_constructor_is_empty() {
    let window = Window::empty();
    assert_eq!(window.last_finalized(), None);
    assert_eq!(window.levels_len(), 0);
    assert_eq!(window.parents_len(), 0);
    assert!(window.same_as(&empty_window()));
}

#[test]
fn store_that_does_not_answer_is_an_error() {
    assert!(matches!(Window::new(&Broken), Err(Error::Db("no answer"))));
    assert!(matches!(Window::new(&HalfBroken), Err(Error::Db("no answer"))));
}

#[test]
fn pointer_that_cannot_be_read_is_a_decoding_error() {
    let db = meta_store(vec![(to_last_finalized_key(), vec![1, 2, 3])]);
    assert!(matches!(Window::new(&db), Err(Error::Decoding)));
}

#[test]
fn record_that_cannot_be_read_is_a_decoding_error() {
    let db = meta_store(vec![
        (to_last_finalized_key(), encode_pointer(&h(0), 4)),
        (to_journal_key(5, 0), record(block(1), h(0))),
        (to_journal_key(5, 1), vec![0xff; 10]),
    ]);
    assert!(matches!(Window::new(&db), Err(Error::Decoding)));
}

#[test]
fn journal_with_one_hash_twice_is_a_decoding_error() {
    let db = meta_store(vec![
        (to_last_finalized_key(), encode_pointer(&h(0), 4)),
        (to_journal_key(5, 0), record(block(1), h(0))),
        (to_journal_key(6, 0), record(block(1), block(1))),
    ]);
    assert!(matches!(Window::new(&db), Err(Error::Decoding)));
}

#[test]
fn pointer_alone_gives_a_window_without_levels() {
    let db = meta_store(vec![(to_last_finalized_key(), encode_pointer(&block(9), 4))]);
    let window = Window::new(&db).unwrap();
    assert_eq!(window.last_finalized(), Some((block(9), 4)));
    assert_eq!(window.levels_len(), 0);
    assert_eq!(window.front_block_number(), 5);
}

#[test]
fn pointer_at_the_last_number_gives_a_window_without_levels() {
    let db = meta_store(vec![
        (to_last_finalized_key(), encode_pointer(&block(9), u64::MAX)),
        (to_journal_key(0, 0), record(block(1), block(9))),
    ]);
    let window = Window::new(&db).unwrap();
    assert_eq!(window.last_finalized(), Some((block(9), u64::MAX)));
    assert_eq!(window.levels_len(), 0);
    assert!(!window.can_insert(&block(2), u64::MAX, &block(9)));
    assert!(!window.can_insert(&block(2), 0, &block(9)));
}

#[test]
fn reading_stops_at_the_first_index_without_a_record() {
    let db = meta_store(vec![
        (to_last_finalized_key(), encode_pointer(&h(0), 4)),
        (to_journal_key(5, 0), record(block(1), h(0))),
        (to_journal_key(5, 2), record(block(3), h(0))),
        (to_journal_key(6, 0), record(block(4), block(1))),
    ]);
    let window = Window::new(&db).unwrap();
    assert_eq!(window.levels_len(), 2);
    assert_eq!(window.level_len(0), 1);
    assert_eq!(window.level_len(1), 1);
    assert_eq!(window.parents_len(), 2);
}

#[test]
fn reading_stops_at_the_first_level_without_a_record() {
    let db = meta_store(vec![
        (to_last_finalized_key(), encode_pointer(&h(0), 4)),
        (to_journal_key(5, 0), record(block(1), h(0))),
        (to_journal_key(7, 0), record(block(3), block(1))),
    ]);
    let window = Window::new(&db).unwrap();
    assert_eq!(window.levels_len(), 1);
    assert_eq!(window.parents_len(), 1);
}

#[test]
fn records_without_a_pointer_are_not_read() {
    let db = meta_store(vec![(to_journal_key(0, 0), record(block(1), h(0)))]);
    let window = Window::new(&db).unwrap();
    assert!(window.same_as(&Window::empty()));
}

#[test]
fn level_at_the_last_number_is_read() {
    let db = meta_store(vec![
        (to_last_finalized_key(), encode_pointer(&h(0), u64::MAX - 1)),
        (to_journal_key(u64::MAX, 0), record(block(1), h(0))),
    ]);
    let mut window = Window::new(&db).unwrap();
    assert_eq!(window.levels_len(), 1);
    assert_eq!(window.front_block_number(), u64::MAX);
    assert!(window.can_insert(&block(2), u64::MAX, &h(0)));
    assert!(window.can_finalize(&block(1)));
    window.finalize(&block(1));
    assert_eq!(window.last_finalized(), Some((block(1), u64::MAX)));
    assert!(!window.can_insert(&block(3), u64::MAX, &block(1)));
}

// ---------------------------------------------------------------------- insert

#[test]
fn first_insert_takes_the_parent_as_final() {
    let mut window = empty_window();
    let commit = window.insert(&block(1), 7, &block(0), changes(&[(1, 1)], &[2]));
    assert_eq!(window.last_finalized(), Some((block(0), 6)));
    assert_eq!(window.front_block_number(), 7);
    assert_eq!(window.levels_len(), 1);
    assert_eq!(commit.meta.inserted.len(), 2);
    assert_eq!(commit.meta.inserted[0], (to_last_finalized_key(), encode_pointer(&block(0), 6)));
    assert_eq!(commit.meta.inserted[1].0, to_journal_key(7, 0));
}

#[test]
fn insert_writes_the_record_of_the_block() {
    let mut window = empty_window();
    window.insert(&block(1), 1, &block(0), ChangeSet::default());
    let given = changes(&[(1, 1), (2, 2), (1, 3)], &[4, 4]);
    let commit = window.insert(&block(2), 1, &block(0), given.clone());
    let expected = JournalRecord::<H256, H256> {
        hash: block(2),
        parent_hash: block(0),
        inserted: given.inserted,
        deleted: given.deleted,
    };
    assert_eq!(commit.meta.inserted, vec![(to_journal_key(1, 1), expected.encode())]);
    assert!(commit.meta.deleted.is_empty());
    assert!(commit.data.inserted.is_empty());
    assert!(commit.data.deleted.is_empty());
}

#[test]
fn insert_gives_indices_in_the_order_of_insertion() {
    let mut window = empty_window();
    let a = window.insert(&block(1), 1, &block(0), ChangeSet::default());
    let b = window.insert(&block(2), 1, &block(0), ChangeSet::default());
    let c = window.insert(&block(3), 2, &block(1), ChangeSet::default());
    let d = window.insert(&block(4), 1, &block(0), ChangeSet::default());
    assert_eq!(a.meta.inserted[1].0, to_journal_key(1, 0));
    assert_eq!(b.meta.inserted[0].0, to_journal_key(1, 1));
    assert_eq!(c.meta.inserted[0].0, to_journal_key(2, 0));
    assert_eq!(d.meta.inserted[0].0, to_journal_key(1, 2));
    assert_eq!(window.level_len(0), 3);
    assert_eq!(window.level_len(1), 1);
}

#[test]
fn insert_into_a_fresh_window_needs_a_number_from_one_on() {
    let window = empty_window();
    assert!(!window.can_insert(&block(1), 0, &block(0)));
    assert!(window.can_insert(&block(1), 1, &block(0)));
    assert!(window.can_insert(&block(1), u64::MAX, &block(0)));
}

#[test]
fn insert_behind_the_front_is_refused() {
    let mut window = empty_window();
    window.insert(&block(1), 2, &block(0), ChangeSet::default());
    assert!(!window.can_insert(&block(2), 1, &block(1)));
    assert!(!window.can_insert(&block(2), 1, &block(0)));
    assert!(!window.can_insert(&block(2), 0, &block(0)));
}

#[test]
fn insert_beyond_the_level_behind_the_last_is_refused() {
    let mut window = empty_window();
    window.insert(&block(1), 1, &block(0), ChangeSet::default());
    assert!(window.can_insert(&block(2), 2, &block(1)));
    assert!(!window.can_insert(&block(2), 3, &block(1)));
    assert!(!window.can_insert(&block(2), u64::MAX, &block(1)));
}

#[test]
fn insert_with_an_unknown_parent_is_refused() {
    let mut window = empty_window();
    window.insert(&block(1), 1, &block(0), ChangeSet::default());
    assert!(!window.can_insert(&block(2), 2, &block(0)));
    assert!(!window.can_insert(&block(2), 2, &block(7)));
    assert!(window.can_insert(&block(2), 2, &block(1)));
}

#[test]
fn insert_on_the_front_level_needs_the_last_final_block_as_parent() {
    let mut window = empty_window();
    window.insert(&block(1), 1, &block(0), ChangeSet::default());
    assert!(window.can_insert(&block(2), 1, &block(0)));
    assert!(!window.can_insert(&block(2), 1, &block(1)));
    assert!(!window.can_insert(&block(2), 1, &block(7)));
}

#[test]
fn insert_of_a_hash_that_is_in_the_window_is_refused() {
    let mut window = empty_window();
    window.insert(&block(1), 1, &block(0), ChangeSet::default());
    assert!(!window.can_insert(&block(1), 1, &block(0)));
    assert!(!window.can_insert(&block(1), 2, &block(1)));
    window.insert(&block(2), 2, &block(1), ChangeSet::default());
    assert!(!window.can_insert(&block(2), 1, &block(0)));
}

#[test]
fn insert_accepts_any_block_of_the_window_as_parent() {
    let mut window = empty_window();
    window.insert(&block(1), 1, &block(0), ChangeSet::default());
    window.insert(&block(2), 2, &block(1), ChangeSet::default());
    // a parent on the same level
    assert!(window.can_insert(&block(3), 2, &block(2)));
    window.insert(&block(3), 2, &block(2), ChangeSet::default());
    assert_eq!(window.parents_len(), 3);
    // such a block stays when its level comes to the front
    window.finalize(&block(1));
    assert_eq!(window.level_len(0), 2);
    assert_eq!(window.parents_len(), 2);
}

#[test]
fn insert_takes_the_length_of_the_level_as_index_even_behind_a_gap() {
    // 1 - 3
    // 2 - 4
    let mut window = empty_window();
    window.insert(&block(1), 1, &block(0), ChangeSet::default());
    window.insert(&block(2), 1, &block(0), ChangeSet::default());
    window.insert(&block(3), 2, &block(1), ChangeSet::default());
    let kept = window.insert(&block(4), 2, &block(2), ChangeSet::default());
    assert_eq!(kept.meta.inserted[0].0, to_journal_key(2, 1));
    // finalizing 2 cuts 3; 4 is now alone on its level and keeps the index 1
    window.finalize(&block(2));
    assert_eq!(window.level_len(0), 1);
    let next = window.insert(&block(5), 2, &block(2), ChangeSet::default());
    assert_eq!(next.meta.inserted[0].0, to_journal_key(2, 1));
    assert_eq!(window.level_len(0), 2);
    assert_eq!(window.parents_len(), 2);
}

// ------------------------------------------------------------------------- get

#[test]
fn get_finds_nothing_in_an_empty_window() {
    assert_eq!(empty_window().get(&h(1)), None);
}

#[test]
fn get_takes_the_first_level_that_has_the_key() {
    let mut window = empty_window();
    window.insert(&block(1), 1, &block(0), changes(&[(1, 10)], &[]));
    window.insert(&block(2), 2, &block(1), changes(&[(1, 20), (2, 21)], &[]));
    assert_eq!(window.get(&h(1)), Some(vec![10]));
    assert_eq!(window.get(&h(2)), Some(vec![21]));
    assert_eq!(window.get(&h(3)), None);
}

#[test]
fn get_takes_the_first_overlay_of_a_level_that_has_the_key() {
    let mut window = empty_window();
    window.insert(&block(1), 1, &block(0), changes(&[(2, 5)], &[]));
    window.insert(&block(2), 1, &block(0), changes(&[(1, 10)], &[]));
    window.insert(&block(3), 1, &block(0), changes(&[(1, 20)], &[]));
    assert_eq!(window.get(&h(1)), Some(vec![10]));
}

#[test]
fn get_does_not_see_deletes() {
    let mut window = empty_window();
    window.insert(&block(1), 1, &block(0), changes(&[(1, 10)], &[]));
    window.insert(&block(2), 2, &block(1), changes(&[], &[1]));
    assert_eq!(window.get(&h(1)), Some(vec![10]));
    let mut window = empty_window();
    window.insert(&block(1), 1, &block(0), changes(&[(1, 10)], &[1]));
    assert_eq!(window.get(&h(1)), Some(vec![10]));
}

#[test]
fn later_insert_of_a_key_wins_within_a_block() {
    let mut window = empty_window();
    window.insert(&block(1), 1, &block(0), changes(&[(1, 10), (2, 20), (1, 11)], &[]));
    assert_eq!(window.get(&h(1)), Some(vec![11]));
    let commit = window.finalize(&block(1));
    assert_eq!(commit.data.inserted, vec![(h(1), vec![11u8]), (h(2), vec![20u8])]);
}

// -------------------------------------------------------------------- finalize

#[test]
fn finalize_of_an_empty_window_is_refused() {
    assert!(!empty_window().can_finalize(&block(1)));
    let db = meta_store(vec![(to_last_finalized_key(), encode_pointer(&block(9), 4))]);
    assert!(!Window::new(&db).unwrap().can_finalize(&block(9)));
}

#[test]
fn finalize_of_a_block_that_is_not_on_the_front_level_is_refused() {
    let mut window = empty_window();
    window.insert(&block(1), 1, &block(0), ChangeSet::default());
    window.insert(&block(2), 2, &block(1), ChangeSet::default());
    assert!(window.can_finalize(&block(1)));
    assert!(!window.can_finalize(&block(2)));
    assert!(!window.can_finalize(&block(0)));
    assert!(!window.can_finalize(&block(7)));
}

#[test]
fn finalize_writes_the_changes_of_the_winner_in_their_order() {
    let mut window = empty_window();
    window.insert(&block(1), 1, &block(0), changes(&[(3, 3), (1, 1), (2, 2)], &[9, 8, 9]));
    window.insert(&block(2), 1, &block(0), changes(&[(4, 4)], &[7]));
    let commit = window.finalize(&block(1));
    assert_eq!(
        commit.data.inserted,
        vec![(h(3), vec![3u8]), (h(1), vec![1u8]), (h(2), vec![2u8])]
    );
    assert_eq!(commit.data.deleted, vec![h(9), h(8), h(9)]);
    assert_eq!(commit.meta.inserted, vec![(to_last_finalized_key(), encode_pointer(&block(1), 1))]);
}

#[test]
fn finalize_deletes_the_records_of_the_front_level_and_of_what_is_cut() {
    // 1 - 3
    // 2 - 4 - 6
    //   \ 5
    let mut window = empty_window();
    window.insert(&block(1), 1, &block(0), ChangeSet::default());
    window.insert(&block(2), 1, &block(0), ChangeSet::default());
    window.insert(&block(3), 2, &block(1), ChangeSet::default());
    window.insert(&block(4), 2, &block(2), ChangeSet::default());
    window.insert(&block(5), 2, &block(2), ChangeSet::default());
    window.insert(&block(6), 3, &block(4), ChangeSet::default());
    let commit = window.finalize(&block(1));
    // the winner's own record; then, for the other root, what hangs below it
    // level by level, and its own record last
    assert_eq!(
        commit.meta.deleted,
        vec![
            to_journal_key(1, 0),
            to_journal_key(2, 1),
            to_journal_key(2, 2),
            to_journal_key(3, 0),
            to_journal_key(1, 1),
        ]
    );
    assert_eq!(window.levels_len(), 2);
    assert_eq!(window.level_len(0), 1);
    assert_eq!(window.level_len(1), 0);
    assert_eq!(window.parents_len(), 1);
    assert_eq!(window.last_finalized(), Some((block(1), 1)));
}

#[test]
fn finalize_of_the_only_block_of_the_only_level_leaves_nothing() {
    let mut window = empty_window();
    window.insert(&block(1), 1, &block(0), changes(&[(1, 1)], &[]));
    let commit = window.finalize(&block(1));
    assert_eq!(window.levels_len(), 0);
    assert_eq!(window.parents_len(), 0);
    assert_eq!(window.get(&h(1)), None);
    assert_eq!(commit.meta.deleted, vec![to_journal_key(1, 0)]);
    assert_eq!(window.last_finalized(), Some((block(1), 1)));
    assert!(window.can_insert(&block(2), 2, &block(1)));
    assert!(!window.can_insert(&block(2), 2, &block(0)));
}

#[test]
fn finalize_of_an_only_child_takes_one_level_and_one_parent() {
    let mut window = empty_window();
    window.insert(&block(1), 1, &block(0), ChangeSet::default());
    window.insert(&block(2), 2, &block(1), ChangeSet::default());
    window.insert(&block(3), 2, &block(1), ChangeSet::default());
    window.insert(&block(4), 3, &block(3), ChangeSet::default());
    let commit = window.finalize(&block(1));
    assert_eq!(commit.meta.deleted, vec![to_journal_key(1, 0)]);
    assert_eq!(window.levels_len(), 2);
    assert_eq!(window.level_len(0), 2);
    assert_eq!(window.level_len(1), 1);
    assert_eq!(window.parents_len(), 3);
}

// ------------------------------------------------------------------- the laws

fn total(window: &Window) -> usize {
    (0..window.levels_len()).map(|i| window.level_len(i)).sum()
}

#[test]
fn there_are_as_many_parents_as_overlays() {
    let mut window = empty_window();
    assert_eq!(window.parents_len(), total(&window));
    window.insert(&block(1), 1, &block(0), ChangeSet::default());
    window.insert(&block(2), 1, &block(0), ChangeSet::default());
    window.insert(&block(3), 2, &block(1), ChangeSet::default());
    window.insert(&block(4), 2, &block(2), ChangeSet::default());
    window.insert(&block(5), 3, &block(4), ChangeSet::default());
    assert_eq!(total(&window), 5);
    assert_eq!(window.parents_len(), 5);
    window.finalize(&block(1));
    assert_eq!(total(&window), 1);
    assert_eq!(window.parents_len(), 1);
    window.finalize(&block(3));
    assert_eq!(total(&window), 0);
    assert_eq!(window.parents_len(), 0);
}

#[test]
fn levels_follow_the_front_block_number() {
    let mut window = empty_window();
    window.insert(&block(1), 10, &block(0), ChangeSet::default());
    window.insert(&block(2), 11, &block(1), ChangeSet::default());
    assert_eq!(window.front_block_number(), 10);
    assert_eq!(window.levels_len(), 2);
    window.finalize(&block(1));
    assert_eq!(window.front_block_number(), 11);
    assert_eq!(window.levels_len(), 1);
    assert!(window.can_insert(&block(3), 11, &block(1)));
    assert!(window.can_insert(&block(3), 12, &block(2)));
    assert!(!window.can_insert(&block(3), 10, &block(0)));
}

fn applied(db: &mut MemoryDb<H256>, commit: CommitSet<H256>) {
    db.commit(&commit);
}

#[test]
fn window_is_rebuilt_after_every_insert() {
    let mut db = MemoryDb::new();
    let mut window = Window::new(&db).unwrap();
    let steps: [(u64, u64, u64); 6] =
        [(1, 5, 0), (2, 5, 0), (3, 6, 1), (4, 6, 2), (5, 7, 3), (6, 5, 0)];
    for (hash, number, parent) in steps {
        let given = changes(&[(hash, hash as u8), (1, 1)], &[hash + 1]);
        applied(&mut db, window.insert(&block(hash), number, &block(parent), given));
        assert!(window.same_as(&Window::new(&db).unwrap()));
    }
    assert_eq!(db.meta_len(), 7);
}

#[test]
fn window_is_rebuilt_after_a_finalization_that_cuts_the_ends_of_levels() {
    // 1 - 3 - 5
    // 2 - 4
    let mut db = MemoryDb::new();
    let mut window = Window::new(&db).unwrap();
    applied(&mut db, window.insert(&block(1), 1, &block(0), changes(&[(1, 1)], &[])));
    applied(&mut db, window.insert(&block(2), 1, &block(0), changes(&[(2, 2)], &[])));
    applied(&mut db, window.insert(&block(3), 2, &block(1), changes(&[(3, 3)], &[])));
    applied(&mut db, window.insert(&block(4), 2, &block(2), changes(&[(4, 4)], &[])));
    applied(&mut db, window.insert(&block(5), 3, &block(3), changes(&[(5, 5)], &[])));
    applied(&mut db, window.finalize(&block(1)));
    let rebuilt = Window::new(&db).unwrap();
    assert!(window.same_as(&rebuilt));
    assert_eq!(rebuilt.levels_len(), 2);
    assert_eq!(rebuilt.parents_len(), 2);
    assert_eq!(rebuilt.last_finalized(), Some((block(1), 1)));
    assert_eq!(db.meta_len(), 3);
    assert_eq!(db.get(&h(1)), Some(vec![1]));
    applied(&mut db, window.finalize(&block(3)));
    applied(&mut db, window.finalize(&block(5)));
    assert!(window.same_as(&Window::new(&db).unwrap()));
    assert_eq!(db.meta_len(), 1);
}

#[test]
fn overlay_behind_a_gap_is_not_rebuilt() {
    // 1 - 3
    // 2 - 4
    // finalizing 2 cuts 3, the first of its level, and 4 keeps the index 1
    let mut db = MemoryDb::new();
    let mut window = Window::new(&db).unwrap();
    applied(&mut db, window.insert(&block(1), 1, &block(0), ChangeSet::default()));
    applied(&mut db, window.insert(&block(2), 1, &block(0), ChangeSet::default()));
    applied(&mut db, window.insert(&block(3), 2, &block(1), ChangeSet::default()));
    applied(&mut db, window.insert(&block(4), 2, &block(2), ChangeSet::default()));
    applied(&mut db, window.finalize(&block(2)));
    assert_eq!(window.levels_len(), 1);
    assert_eq!(window.level_len(0), 1);
    assert_eq!(db.get_meta(&to_journal_key(2, 0)), Ok(None));
    assert!(db.get_meta(&to_journal_key(2, 1)).unwrap().is_some());
    let rebuilt = Window::new(&db).unwrap();
    assert_eq!(rebuilt.levels_len(), 0);
    assert!(!window.same_as(&rebuilt));
}

#[test]
fn level_that_is_left_empty_is_not_rebuilt() {
    // 1
    // 2 - 3
    let mut db = MemoryDb::new();
    let mut window = Window::new(&db).unwrap();
    applied(&mut db, window.insert(&block(1), 1, &block(0), ChangeSet::default()));
    applied(&mut db, window.insert(&block(2), 1, &block(0), ChangeSet::default()));
    applied(&mut db, window.insert(&block(3), 2, &block(2), ChangeSet::default()));
    applied(&mut db, window.finalize(&block(1)));
    assert_eq!(window.levels_len(), 1);
    assert_eq!(window.level_len(0), 0);
    assert_eq!(window.parents_len(), 0);
    let rebuilt = Window::new(&db).unwrap();
    assert_eq!(rebuilt.levels_len(), 0);
    assert!(!window.same_as(&rebuilt));
    assert_eq!(window.last_finalized(), rebuilt.last_finalized());
    assert_eq!(db.meta_len(), 1);
}

#[test]
fn windows_differ_by_their_parents() {
    let mut a = empty_window();
    let mut b = empty_window();
    a.insert(&block(1), 1, &block(0), ChangeSet::default());
    b.insert(&block(1), 1, &block(0), ChangeSet::default());
    a.insert(&block(2), 1, &block(0), ChangeSet::default());
    b.insert(&block(2), 1, &block(0), ChangeSet::default());
    assert!(a.same_as(&b));
    a.insert(&block(3), 2, &block(1), ChangeSet::default());
    b.insert(&block(3), 2, &block(2), ChangeSet::default());
    assert!(!a.same_as(&b));
}

#[test]
fn windows_differ_by_their_changes() {
    let mut a = empty_window();
    let mut b = empty_window();
    a.insert(&block(1), 1, &block(0), changes(&[(1, 1)], &[]));
    b.insert(&block(1), 1, &block(0), changes(&[(1, 2)], &[]));
    assert!(!a.same_as(&b));
    let mut c = empty_window();
    c.insert(&block(1), 1, &block(0), changes(&[(1, 1)], &[1]));
    assert!(!a.same_as(&c));
    let mut d = empty_window();
    d.insert(&block(1), 2, &block(0), changes(&[(1, 1)], &[]));
    assert!(!a.same_as(&d));
}

// ------------------------------------------------------------ other hash types

#[test]
fn window_over_byte_strings_is_rebuilt() {
    let mut db: MemoryDb<Vec<u8>> = MemoryDb::new();
    let mut window: UnfinalizedOverlay<Vec<u8>, Vec<u8>> = UnfinalizedOverlay::new(&db).unwrap();
    let given = ChangeSet {
        inserted: vec![(b"key".to_vec(), b"value".to_vec()), (vec![], vec![])],
        deleted: vec![b"old".to_vec()],
    };
    db.commit(&window.insert(&b"one".to_vec(), 1, &b"zero".to_vec(), given));
    db.commit(&window.insert(&b"two".to_vec(), 2, &b"one".to_vec(), ChangeSet::default()));
    assert_eq!(window.get(&b"key".to_vec()), Some(b"value".to_vec()));
    assert_eq!(window.get(&vec![]), Some(vec![]));
    let rebuilt: UnfinalizedOverlay<Vec<u8>, Vec<u8>> = UnfinalizedOverlay::new(&db).unwrap();
    assert!(window.same_as(&rebuilt));
    assert_eq!(rebuilt.last_finalized(), Some((b"zero".to_vec(), 0)));
    let commit = window.finalize(&b"one".to_vec());
    assert_eq!(commit.data.deleted, vec![b"old".to_vec()]);
    db.commit(&commit);
    assert_eq!(db.get(&b"key".to_vec()), Some(b"value".to_vec()));
    let rebuilt: UnfinalizedOverlay<Vec<u8>, Vec<u8>> = UnfinalizedOverlay::new(&db).unwrap();
    assert!(window.same_as(&rebuilt));
}

#[test]
fn journal_of_another_hash_type_is_not_read() {
    // a block hash of three bytes is no image of a 256-bit value
    let mut db: MemoryDb<Vec<u8>> = MemoryDb::new();
    let mut window: UnfinalizedOverlay<Vec<u8>, Vec<u8>> = UnfinalizedOverlay::new(&db).unwrap();
    db.commit(&window.insert(&b"one".to_vec(), 1, &b"zero".to_vec(), ChangeSet::default()));
    let store = meta_store(vec![(
        to_last_finalized_key(),
        db.get_meta(&to_last_finalized_key()).unwrap().unwrap(),
    )]);
    assert!(matches!(Window::new(&store), Err(Error::Decoding)));
}
