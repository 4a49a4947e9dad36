//! The window's records in the meta store: one journal record per block that
//! is not final yet, and a pointer to the last final block.

use crate::codec::{
    all_images, blob_bytes, hash_list_bytes, is_image, keys_view, lemma_image_fits,
    lemma_parse_blob, lemma_parse_hash_list, lemma_parse_pair_list, lemma_parse_u64,
    pair_list_bytes, pairs_fit, pairs_view, parse_hash, parse_hash_list, parse_pair_list,
    parse_u64, read_hash, read_hash_list, read_pair_list, read_u64, u64_bytes, write_hash,
    write_hash_list, write_pair_list, write_u64, DBValue,
};
use crate::hash;
use vstd::bytes::{lemma_auto_spec_u64_to_from_le_bytes, spec_u64_from_le_bytes};
use vstd::prelude::*;
use vstd::slice::slice_to_vec;

verus! {

// -------------------------------------------------------------------- keys

/// The bytes of `unfinalized_journal`.
pub open spec fn journal_prefix() -> Seq<u8> {
    seq![
        117u8, 110u8, 102u8, 105u8, 110u8, 97u8, 108u8, 105u8, 122u8, 101u8, 100u8, 95u8, 106u8,
        111u8, 117u8, 114u8, 110u8, 97u8, 108u8,
    ]
}

/// The bytes of `last_finalized`.
pub open spec fn last_finalized_prefix() -> Seq<u8> {
    seq![
        108u8, 97u8, 115u8, 116u8, 95u8, 102u8, 105u8, 110u8, 97u8, 108u8, 105u8, 122u8, 101u8,
        100u8,
    ]
}

/// The key of the journal record of the block of number `block` that stands
/// at `index` on its level.
pub open spec fn journal_key(block: u64, index: u64) -> Seq<u8> {
    journal_prefix() + u64_bytes(block) + u64_bytes(index)
}

/// The key of the pointer to the last final block. The pointer is alone under
/// its prefix, so nothing follows the prefix.
pub open spec fn last_finalized_key() -> Seq<u8> {
    last_finalized_prefix()
}

/// The block number and the index that a journal key was made of.
pub open spec fn parse_journal_key(key: Seq<u8>) -> Option<(u64, u64)> {
    if key.len() == 35 && key.subrange(0, 19) == journal_prefix() {
        Some(
            (
                spec_u64_from_le_bytes(key.subrange(19, 27)),
                spec_u64_from_le_bytes(key.subrange(27, 35)),
            ),
        )
    } else {
        None
    }
}

/// A journal key says which block and which index it is for, and is never
/// the key of the pointer.
pub proof fn lemma_journal_key(block: u64, index: u64)
    ensures
        journal_key(block, index).len() == 35,
        parse_journal_key(journal_key(block, index)) == Some((block, index)),
        journal_key(block, index) != last_finalized_key(),
{
    lemma_auto_spec_u64_to_from_le_bytes();
    let key = journal_key(block, index);
    assert(key.subrange(0, 19) =~= journal_prefix());
    assert(key.subrange(19, 27) =~= u64_bytes(block));
    assert(key.subrange(27, 35) =~= u64_bytes(index));
}

/// Journal keys of different places are different.
pub proof fn lemma_journal_key_injective(b1: u64, i1: u64, b2: u64, i2: u64)
    requires
        journal_key(b1, i1) == journal_key(b2, i2),
    ensures
        b1 == b2,
        i1 == i2,
{
    lemma_journal_key(b1, i1);
    lemma_journal_key(b2, i2);
}

/// A key of the meta store: a prefix that names the kind of record, then the
/// bytes that tell the records of that kind apart.
pub fn to_meta_key(prefix: &[u8], data: &[u8]) -> (key: Vec<u8>)
    ensures
        key@ == prefix@ + data@,
{
    let mut key = slice_to_vec(prefix);
    let mut rest = slice_to_vec(data);
    key.append(&mut rest);
    key
}

fn unfinalized_journal() -> (prefix: Vec<u8>)
    ensures
        prefix@ == journal_prefix(),
{
    let prefix = vec![
        117u8, 110u8, 102u8, 105u8, 110u8, 97u8, 108u8, 105u8, 122u8, 101u8, 100u8, 95u8, 106u8,
        111u8, 117u8, 114u8, 110u8, 97u8, 108u8,
    ];
    assert(prefix@ =~= journal_prefix());
    prefix
}

fn last_finalized() -> (prefix: Vec<u8>)
    ensures
        prefix@ == last_finalized_prefix(),
{
    let prefix = vec![
        108u8, 97u8, 115u8, 116u8, 95u8, 102u8, 105u8, 110u8, 97u8, 108u8, 105u8, 122u8, 101u8,
        100u8,
    ];
    assert(prefix@ =~= last_finalized_prefix());
    prefix
}

/// The key of the journal record of the block of number `block` that
/// stands at `index` on its level.
pub fn to_journal_key(block: u64, index: u64) -> (key: Vec<u8>)
    ensures
        key@ == journal_key(block, index),
{
    let mut place: Vec<u8> = Vec::new();
    write_u64(&mut place, block);
    write_u64(&mut place, index);
    let key = to_meta_key(unfinalized_journal().as_slice(), place.as_slice());
    assert(key@ =~= journal_key(block, index));
    key
}

/// The key of the pointer to the last final block.
pub fn to_last_finalized_key() -> (key: Vec<u8>)
    ensures
        key@ == last_finalized_key(),
{
    let nothing: Vec<u8> = Vec::new();
    let key = to_meta_key(last_finalized().as_slice(), nothing.as_slice());
    assert(key@ =~= last_finalized_key());
    key
}

// ----------------------------------------------------------------- pointer

/// The pointer to the last final block: its hash, then its number.
pub open spec fn pointer_bytes(hash: Seq<u8>, number: u64) -> Seq<u8> {
    blob_bytes(hash) + u64_bytes(number)
}

/// Reads a pointer; bytes after it are ignored.
pub open spec fn decode_pointer<B: hash::Hash>(s: Seq<u8>) -> Option<(Seq<u8>, u64)> {
    match parse_hash::<B>(s) {
        None => None,
        Some((hash, rest)) => match parse_u64(rest) {
            None => None,
            Some((number, _)) => Some((hash, number)),
        },
    }
}

/// A pointer that was written is read back as it was.
pub proof fn lemma_decode_pointer<B: hash::Hash>(hash: Seq<u8>, number: u64)
    requires
        is_image::<B>(hash),
    ensures
        decode_pointer::<B>(pointer_bytes(hash, number)) == Some((hash, number)),
{
    lemma_image_fits::<B>(hash);
    lemma_parse_blob(hash, u64_bytes(number));
    lemma_parse_u64(number, Seq::empty());
    assert(u64_bytes(number) + Seq::<u8>::empty() =~= u64_bytes(number));
}

/// The bytes of the pointer to the last final block.
pub fn encode_pointer<B: hash::Hash>(hash: &B, number: u64) -> (bytes: Vec<u8>)
    ensures
        bytes@ == pointer_bytes(hash@, number),
{
    let mut bytes: Vec<u8> = Vec::new();
    write_hash(&mut bytes, hash);
    write_u64(&mut bytes, number);
    assert(bytes@ =~= pointer_bytes(hash@, number));
    bytes
}

/// Reads a pointer; bytes after it are ignored.
pub fn read_pointer<B: hash::Hash>(input: &[u8]) -> (r: Option<(B, u64)>)
    ensures
        match r {
            Some((hash, number)) => decode_pointer::<B>(input@) == Some((hash@, number)),
            None => decode_pointer::<B>(input@) is None,
        },
{
    assert(input@.skip(0) =~= input@);
    let (hash, at) = match read_hash::<B>(input, 0) {
        None => { return None; },
        Some(p) => p,
    };
    match read_u64(input, at) {
        None => None,
        Some((number, _)) => Some((hash, number)),
    }
}

// ------------------------------------------------------------------ record

/// The journal record of one block: what `insert` was given for it.
pub struct JournalRecord<BlockHash: hash::Hash, Key: hash::Hash> {
    pub hash: BlockHash,
    pub parent_hash: BlockHash,
    pub inserted: Vec<(Key, DBValue)>,
    pub deleted: Vec<Key>,
}

/// A record with everything taken as its bytes.
pub ghost struct RecordView {
    pub hash: Seq<u8>,
    pub parent_hash: Seq<u8>,
    pub inserted: Seq<(Seq<u8>, Seq<u8>)>,
    pub deleted: Seq<Seq<u8>>,
}

impl<BlockHash: hash::Hash, Key: hash::Hash> View for JournalRecord<BlockHash, Key> {
    type V = RecordView;

    open spec fn view(&self) -> RecordView {
        RecordView {
            hash: self.hash@,
            parent_hash: self.parent_hash@,
            inserted: pairs_view(self.inserted@),
            deleted: keys_view(self.deleted@),
        }
    }
}

impl RecordView {
    /// The record can be written for blocks of type `B` and keys of type `K`:
    /// its hashes and keys are images, and its lists and values are short
    /// enough for their lengths to be written.
    pub open spec fn fits<B: hash::Hash, K: hash::Hash>(self) -> bool {
        &&& is_image::<B>(self.hash)
        &&& is_image::<B>(self.parent_hash)
        &&& pairs_fit::<K>(self.inserted)
        &&& self.deleted.len() <= u64::MAX
        &&& all_images::<K>(self.deleted)
    }
}

/// The four fields in their fixed order.
pub open spec fn record_bytes(r: RecordView) -> Seq<u8> {
    blob_bytes(r.hash) + blob_bytes(r.parent_hash) + pair_list_bytes(r.inserted)
        + hash_list_bytes(r.deleted)
}

/// Reads a record; bytes after it are ignored.
pub open spec fn decode_record<B: hash::Hash, K: hash::Hash>(s: Seq<u8>) -> Option<RecordView> {
    match parse_hash::<B>(s) {
        None => None,
        Some((hash, s1)) => match parse_hash::<B>(s1) {
            None => None,
            Some((parent_hash, s2)) => match parse_pair_list::<K>(s2) {
                None => None,
                Some((inserted, s3)) => match parse_hash_list::<K>(s3) {
                    None => None,
                    Some((deleted, _)) => Some(
                        RecordView { hash, parent_hash, inserted, deleted },
                    ),
                },
            },
        },
    }
}

/// A record that was written is read back as it was.
pub proof fn lemma_decode_record<B: hash::Hash, K: hash::Hash>(r: RecordView)
    requires
        r.fits::<B, K>(),
    ensures
        decode_record::<B, K>(record_bytes(r)) == Some(r),
{
    let d = hash_list_bytes(r.deleted);
    let i = pair_list_bytes(r.inserted) + d;
    let p = blob_bytes(r.parent_hash) + i;
    assert(record_bytes(r) =~= blob_bytes(r.hash) + p);
    lemma_image_fits::<B>(r.hash);
    lemma_image_fits::<B>(r.parent_hash);
    lemma_parse_blob(r.hash, p);
    lemma_parse_blob(r.parent_hash, i);
    lemma_parse_pair_list::<K>(r.inserted, d);
    lemma_parse_hash_list::<K>(r.deleted, Seq::empty());
    assert(d + Seq::<u8>::empty() =~= d);
}

impl<BlockHash: hash::Hash, Key: hash::Hash> JournalRecord<BlockHash, Key> {
    /// Writes the record behind what `dest` holds.
    pub fn encode_to(&self, dest: &mut Vec<u8>)
        ensures
            final(dest)@ == old(dest)@ + record_bytes(self@),
            self@.fits::<BlockHash, Key>(),
    {
        write_hash(dest, &self.hash);
        write_hash(dest, &self.parent_hash);
        write_pair_list(dest, &self.inserted);
        write_hash_list(dest, &self.deleted);
        assert(dest@ =~= old(dest)@ + record_bytes(self@));
        assert(is_image::<BlockHash>(self.hash@));
        assert(is_image::<BlockHash>(self.parent_hash@));
    }

    /// The bytes of the record.
    pub fn encode(&self) -> (bytes: Vec<u8>)
        ensures
            bytes@ == record_bytes(self@),
            self@.fits::<BlockHash, Key>(),
    {
        let mut bytes: Vec<u8> = Vec::new();
        self.encode_to(&mut bytes);
        assert(bytes@ =~= record_bytes(self@));
        bytes
    }

    /// Reads a record; bytes after it are ignored. `None` where the bytes are
    /// cut short or hold what is no record.
    pub fn decode(input: &[u8]) -> (r: Option<Self>)
        ensures
            match r {
                Some(record) => decode_record::<BlockHash, Key>(input@) == Some(record@),
                None => decode_record::<BlockHash, Key>(input@) is None,
            },
    {
        assert(input@.skip(0) =~= input@);
        let (hash, at) = match read_hash::<BlockHash>(input, 0) {
            None => { return None; },
            Some(p) => p,
        };
        let (parent_hash, at) = match read_hash::<BlockHash>(input, at) {
            None => { return None; },
            Some(p) => p,
        };
        let (inserted, at) = match read_pair_list::<Key>(input, at) {
            None => { return None; },
            Some(p) => p,
        };
        let (deleted, _) = match read_hash_list::<Key>(input, at) {
            None => { return None; },
            Some(p) => p,
        };
        Some(JournalRecord { hash, parent_hash, inserted, deleted })
    }
}

} // verus!
