use state_db::codec::{
    read_blob, read_hash, read_hash_list, read_pair_list, read_u64, write_blob, write_hash,
    write_hash_list, write_pair_list, write_u64,
};
use state_db::H256;

fn h(n: u64) -> H256 {
    H256::from(n)
}

#[test]
fn number_is_eight_bytes_lowest_first() {
    let mut out = Vec::new();
    write_u64(&mut out, 0x0102030405060708);
    assert_eq!(out, vec![8, 7, 6, 5, 4, 3, 2, 1]);
}

#[test]
fn number_is_appended() {
    let mut out = vec![0xaa];
    write_u64(&mut out, 1);
    assert_eq!(out, vec![0xaa, 1, 0, 0, 0, 0, 0, 0, 0]);
}

#[test]
fn number_round_trips() {
    for n in [0u64, 1, 255, 256, 0xdead_beef, u64::MAX] {
        let mut out = Vec::new();
        write_u64(&mut out, n);
        assert_eq!(read_u64(&out, 0), Some((n, 8)));
    }
}

#[test]
fn number_needs_eight_bytes() {
    assert_eq!(read_u64(&[1, 2, 3, 4, 5, 6, 7], 0), None);
    assert_eq!(read_u64(&[], 0), None);
    assert_eq!(read_u64(&[0; 9], 2), None);
    assert_eq!(read_u64(&[0; 9], 1), Some((0, 9)));
}

#[test]
fn blob_is_length_then_bytes() {
    let mut out = Vec::new();
    write_blob(&mut out, &[7, 8, 9]);
    assert_eq!(out, vec![3, 0, 0, 0, 0, 0, 0, 0, 7, 8, 9]);
}

#[test]
fn empty_blob_is_its_length() {
    let mut out = Vec::new();
    write_blob(&mut out, &[]);
    assert_eq!(out, vec![0; 8]);
    assert_eq!(read_blob(&out, 0), Some((vec![], 8)));
}

#[test]
fn blob_round_trips_and_leaves_the_rest() {
    let mut out = Vec::new();
    write_blob(&mut out, &[1, 2, 3, 4, 5]);
    write_blob(&mut out, &[6]);
    let (first, next) = read_blob(&out, 0).unwrap();
    assert_eq!(first, vec![1, 2, 3, 4, 5]);
    assert_eq!(next, 13);
    assert_eq!(read_blob(&out, next), Some((vec![6], out.len())));
}

#[test]
fn blob_shorter_than_its_length_is_refused() {
    let mut out = Vec::new();
    write_blob(&mut out, &[1, 2, 3]);
    out.pop();
    assert_eq!(read_blob(&out, 0), None);
}

#[test]
fn blob_with_a_huge_length_is_refused() {
    let mut out = Vec::new();
    write_u64(&mut out, u64::MAX);
    out.extend_from_slice(&[1, 2, 3]);
    assert_eq!(read_blob(&out, 0), None);
}

#[test]
fn hash_is_written_as_a_blob_of_its_image() {
    let mut out = Vec::new();
    write_hash(&mut out, &h(5));
    let mut expected = vec![32, 0, 0, 0, 0, 0, 0, 0, 5];
    expected.extend_from_slice(&[0; 31]);
    assert_eq!(out, expected);
    assert_eq!(read_hash::<H256>(&out, 0), Some((h(5), 40)));
}

#[test]
fn hash_of_the_wrong_length_is_refused() {
    let mut out = Vec::new();
    write_blob(&mut out, &[0; 31]);
    assert_eq!(read_hash::<H256>(&out, 0), None);
    let mut out = Vec::new();
    write_blob(&mut out, &[0; 33]);
    assert_eq!(read_hash::<H256>(&out, 0), None);
}

#[test]
fn byte_string_is_its_own_image() {
    let mut out = Vec::new();
    write_hash(&mut out, &vec![1u8, 2, 3]);
    assert_eq!(out, vec![3, 0, 0, 0, 0, 0, 0, 0, 1, 2, 3]);
    assert_eq!(read_hash::<Vec<u8>>(&out, 0), Some((vec![1, 2, 3], 11)));
}

#[test]
fn hash_list_is_count_then_items() {
    let mut out = Vec::new();
    write_hash_list(&mut out, &vec![vec![1u8], vec![2u8, 3]]);
    assert_eq!(
        out,
        vec![2, 0, 0, 0, 0, 0, 0, 0, 1, 0, 0, 0, 0, 0, 0, 0, 1, 2, 0, 0, 0, 0, 0, 0, 0, 2, 3]
    );
}

#[test]
fn hash_list_round_trips() {
    let items = vec![h(1), h(2), h(u64::MAX)];
    let mut out = vec![9, 9];
    write_hash_list(&mut out, &items);
    assert_eq!(read_hash_list::<H256>(&out, 2), Some((items, out.len())));
}

#[test]
fn empty_hash_list_round_trips() {
    let items: Vec<H256> = Vec::new();
    let mut out = Vec::new();
    write_hash_list(&mut out, &items);
    assert_eq!(out, vec![0; 8]);
    assert_eq!(read_hash_list::<H256>(&out, 0), Some((items, 8)));
}

#[test]
fn hash_list_with_too_few_items_is_refused() {
    let mut out = Vec::new();
    write_hash_list(&mut out, &vec![h(1), h(2)]);
    out.truncate(out.len() - 1);
    assert_eq!(read_hash_list::<H256>(&out, 0), None);
}

#[test]
fn hash_list_with_a_huge_count_is_refused_at_once() {
    let mut out = Vec::new();
    write_u64(&mut out, u64::MAX);
    assert_eq!(read_hash_list::<H256>(&out, 0), None);
}

#[test]
fn pair_list_round_trips() {
    let items = vec![(h(1), vec![1u8, 2, 3]), (h(2), vec![]), (h(1), vec![4u8])];
    let mut out = Vec::new();
    write_pair_list(&mut out, &items);
    assert_eq!(out.len(), 8 + 3 * 40 + 3 * 8 + 4);
    assert_eq!(read_pair_list::<H256>(&out, 0), Some((items, out.len())));
}

#[test]
fn pair_list_cut_in_a_value_is_refused() {
    let mut out = Vec::new();
    write_pair_list(&mut out, &vec![(h(1), vec![1u8, 2, 3])]);
    out.pop();
    assert_eq!(read_pair_list::<H256>(&out, 0), None);
}

#[test]
fn pair_list_cut_in_a_key_is_refused() {
    let mut out = Vec::new();
    write_pair_list(&mut out, &vec![(h(1), vec![1u8, 2, 3])]);
    out.truncate(20);
    assert_eq!(read_pair_list::<H256>(&out, 0), None);
}
