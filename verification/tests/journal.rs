use state_db::journal::{
    encode_pointer, read_pointer, to_journal_key, to_last_finalized_key, to_meta_key,
    JournalRecord,
};
use state_db::H256;

fn h(n: u64) -> H256 {
    H256::from(n)
}

fn sample() -> JournalRecord<H256, H256> {
    JournalRecord {
        hash: h(1),
        parent_hash: h(2),
        inserted: vec![(h(3), vec![9u8])],
        deleted: vec![h(4)],
    }
}

fn same(a: &JournalRecord<H256, H256>, b: &JournalRecord<H256, H256>) -> bool {
    a.hash == b.hash
        && a.parent_hash == b.parent_hash
        && a.inserted == b.inserted
        && a.deleted == b.deleted
}

#[test]
fn journal_key_is_prefix_block_index() {
    let key = to_journal_key(1, 2);
    let mut expected = b"unfinalized_journal".to_vec();
    expected.extend_from_slice(&[1, 0, 0, 0, 0, 0, 0, 0]);
    expected.extend_from_slice(&[2, 0, 0, 0, 0, 0, 0, 0]);
    assert_eq!(key, expected);
    assert_eq!(key.len(), 35);
}

#[test]
fn journal_keys_differ_by_block_and_by_index() {
    assert_ne!(to_journal_key(1, 2), to_journal_key(2, 1));
    assert_ne!(to_journal_key(1, 0), to_journal_key(1, 1));
    assert_ne!(to_journal_key(0, 256), to_journal_key(1, 0));
    assert_eq!(to_journal_key(u64::MAX, u64::MAX), to_journal_key(u64::MAX, u64::MAX));
}

#[test]
fn last_finalized_key_is_its_prefix() {
    assert_eq!(to_last_finalized_key(), b"last_finalized".to_vec());
}

#[test]
fn the_two_kinds_of_key_never_meet() {
    let pointer = to_last_finalized_key();
    for (block, index) in [(0u64, 0u64), (1, 0), (u64::MAX, u64::MAX)] {
        let key = to_journal_key(block, index);
        assert_ne!(key, pointer);
        assert!(!key.starts_with(&pointer));
    }
}

#[test]
fn meta_key_is_prefix_then_data() {
    assert_eq!(to_meta_key(b"ab", &[1, 2]), vec![b'a', b'b', 1, 2]);
    assert_eq!(to_meta_key(b"ab", &[]), b"ab".to_vec());
}

#[test]
fn pointer_is_hash_then_number() {
    let bytes = encode_pointer(&h(7), 3);
    let mut expected = vec![32, 0, 0, 0, 0, 0, 0, 0, 7];
    expected.extend_from_slice(&[0; 31]);
    expected.extend_from_slice(&[3, 0, 0, 0, 0, 0, 0, 0]);
    assert_eq!(bytes, expected);
}

#[test]
fn pointer_round_trips() {
    let bytes = encode_pointer(&h(7), u64::MAX);
    assert_eq!(read_pointer::<H256>(&bytes), Some((h(7), u64::MAX)));
}

#[test]
fn pointer_without_its_number_is_refused() {
    let mut bytes = encode_pointer(&h(7), 3);
    bytes.pop();
    assert_eq!(read_pointer::<H256>(&bytes), None);
    assert_eq!(read_pointer::<H256>(&[]), None);
}

#[test]
fn record_is_its_four_fields_in_order() {
    let bytes = sample().encode();
    let mut expected = Vec::new();
    // hash
    expected.extend_from_slice(&[32, 0, 0, 0, 0, 0, 0, 0, 1]);
    expected.extend_from_slice(&[0; 31]);
    // parent hash
    expected.extend_from_slice(&[32, 0, 0, 0, 0, 0, 0, 0, 2]);
    expected.extend_from_slice(&[0; 31]);
    // inserted: one pair
    expected.extend_from_slice(&[1, 0, 0, 0, 0, 0, 0, 0]);
    expected.extend_from_slice(&[32, 0, 0, 0, 0, 0, 0, 0, 3]);
    expected.extend_from_slice(&[0; 31]);
    expected.extend_from_slice(&[1, 0, 0, 0, 0, 0, 0, 0, 9]);
    // deleted: one key
    expected.extend_from_slice(&[1, 0, 0, 0, 0, 0, 0, 0]);
    expected.extend_from_slice(&[32, 0, 0, 0, 0, 0, 0, 0, 4]);
    expected.extend_from_slice(&[0; 31]);
    assert_eq!(bytes.len(), 185);
    assert_eq!(bytes, expected);
}

#[test]
fn record_round_trips() {
    let record = sample();
    let decoded = JournalRecord::<H256, H256>::decode(&record.encode()).unwrap();
    assert!(same(&record, &decoded));
}

#[test]
fn record_with_repeated_keys_round_trips_as_a_list() {
    let record = JournalRecord {
        hash: h(1),
        parent_hash: h(1),
        inserted: vec![(h(3), vec![1u8]), (h(3), vec![2u8]), (h(3), vec![])],
        deleted: vec![h(3), h(3)],
    };
    let decoded = JournalRecord::<H256, H256>::decode(&record.encode()).unwrap();
    assert!(same(&record, &decoded));
}

#[test]
fn record_is_appended_by_encode_to() {
    let mut out = vec![1, 2, 3];
    sample().encode_to(&mut out);
    assert_eq!(&out[..3], &[1, 2, 3]);
    assert_eq!(&out[3..], &sample().encode()[..]);
}

#[test]
fn record_cut_anywhere_is_refused() {
    let bytes = sample().encode();
    for len in 0..bytes.len() {
        assert!(JournalRecord::<H256, H256>::decode(&bytes[..len]).is_none(), "length {}", len);
    }
}

#[test]
fn bytes_behind_a_record_are_ignored() {
    let mut bytes = sample().encode();
    bytes.extend_from_slice(&[1, 2, 3]);
    let decoded = JournalRecord::<H256, H256>::decode(&bytes).unwrap();
    assert!(same(&sample(), &decoded));
}

#[test]
fn two_records_one_after_another_do_not_alias() {
    let first = sample();
    let second = JournalRecord::<H256, H256> {
        hash: h(10),
        parent_hash: h(1),
        inserted: vec![],
        deleted: vec![],
    };
    let mut bytes = first.encode();
    let first_len = bytes.len();
    second.encode_to(&mut bytes);
    assert!(same(&first, &JournalRecord::decode(&bytes).unwrap()));
    assert!(same(&second, &JournalRecord::decode(&bytes[first_len..]).unwrap()));
}
