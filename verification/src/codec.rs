//! The byte format of everything the window writes to the meta store.
//!
//! Numbers are eight bytes, lowest first. A byte string is its length as a
//! number, then its bytes. A hash is the byte string of its image. A list is
//! the number of its items, then the items one after another. Every format
//! says where it ends, so values written one after another can be read back
//! in the same order.
//!
//! Each format has a writer (`*_bytes`), a reader on sequences (`parse_*`,
//! which also yields what follows the value), and the executable pair
//! (`write_*`, `read_*`) that is proved to agree with them.

use crate::hash;
use vstd::bytes::{
    lemma_auto_spec_u64_to_from_le_bytes, spec_u64_from_le_bytes, spec_u64_to_le_bytes,
    u64_from_le_bytes, u64_to_le_bytes,
};
use vstd::prelude::*;
use vstd::slice::{slice_subrange, slice_to_vec};

verus! {

/// An opaque value of the store.
pub type DBValue = Vec<u8>;

/// The entries of a list of inserts, key and value each taken as its bytes.
pub open spec fn pairs_view<K: hash::Hash>(pairs: Seq<(K, DBValue)>) -> Seq<(Seq<u8>, Seq<u8>)> {
    Seq::new(pairs.len(), |i: int| (pairs[i].0@, pairs[i].1@))
}

/// The entries of a list of keys, each taken as its bytes.
pub open spec fn keys_view<K: hash::Hash>(keys: Seq<K>) -> Seq<Seq<u8>> {
    Seq::new(keys.len(), |i: int| keys[i]@)
}

// ---------------------------------------------------------------- numbers

/// The eight bytes of a number, lowest first.
pub open spec fn u64_bytes(n: u64) -> Seq<u8> {
    spec_u64_to_le_bytes(n)
}

/// Reads a number from the first eight bytes.
pub open spec fn parse_u64(s: Seq<u8>) -> Option<(u64, Seq<u8>)> {
    if s.len() >= 8 {
        Some((spec_u64_from_le_bytes(s.subrange(0, 8)), s.skip(8)))
    } else {
        None
    }
}

/// A number that was written is read back as it was.
pub proof fn lemma_parse_u64(n: u64, rest: Seq<u8>)
    ensures
        u64_bytes(n).len() == 8,
        parse_u64(u64_bytes(n) + rest) == Some((n, rest)),
{
    lemma_auto_spec_u64_to_from_le_bytes();
    let s = u64_bytes(n) + rest;
    assert(s.subrange(0, 8) =~= u64_bytes(n));
    assert(s.skip(8) =~= rest);
}

/// Writes a number behind what `dest` holds.
pub fn write_u64(dest: &mut Vec<u8>, n: u64)
    ensures
        final(dest)@ == old(dest)@ + u64_bytes(n),
{
    let mut bytes = u64_to_le_bytes(n);
    dest.append(&mut bytes);
}

/// Reads a number at `pos`; the second part of the result is where the next
/// value starts.
pub fn read_u64(input: &[u8], pos: usize) -> (r: Option<(u64, usize)>)
    requires
        pos <= input@.len(),
    ensures
        match r {
            Some((n, next)) => pos <= next <= input@.len() && parse_u64(input@.skip(pos as int))
                == Some((n, input@.skip(next as int))),
            None => parse_u64(input@.skip(pos as int)) is None,
        },
{
    if input.len() - pos < 8 {
        return None;
    }
    let n = u64_from_le_bytes(slice_subrange(input, pos, pos + 8));
    proof {
        let s = input@.skip(pos as int);
        assert(s.subrange(0, 8) =~= input@.subrange(pos as int, pos + 8));
        assert(s.skip(8) =~= input@.skip(pos + 8));
    }
    Some((n, pos + 8))
}

// ----------------------------------------------------------- byte strings

/// A byte string: its length as a number, then its bytes.
pub open spec fn blob_bytes(b: Seq<u8>) -> Seq<u8> {
    u64_bytes(b.len() as u64) + b
}

/// Reads a byte string: a length, and then as many bytes.
pub open spec fn parse_blob(s: Seq<u8>) -> Option<(Seq<u8>, Seq<u8>)> {
    match parse_u64(s) {
        Some((n, rest)) => if n <= rest.len() {
            Some((rest.take(n as int), rest.skip(n as int)))
        } else {
            None
        },
        None => None,
    }
}

/// A byte string that was written is read back as it was.
pub proof fn lemma_parse_blob(b: Seq<u8>, rest: Seq<u8>)
    requires
        b.len() <= u64::MAX,
    ensures
        parse_blob(blob_bytes(b) + rest) == Some((b, rest)),
{
    lemma_parse_u64(b.len() as u64, b + rest);
    assert(blob_bytes(b) + rest =~= u64_bytes(b.len() as u64) + (b + rest));
    assert((b + rest).take(b.len() as int) =~= b);
    assert((b + rest).skip(b.len() as int) =~= rest);
}

/// Writes a byte string behind what `dest` holds.
pub fn write_blob(dest: &mut Vec<u8>, b: &[u8])
    ensures
        final(dest)@ == old(dest)@ + blob_bytes(b@),
{
    write_u64(dest, b.len() as u64);
    let mut bytes = slice_to_vec(b);
    dest.append(&mut bytes);
    assert(dest@ =~= old(dest)@ + blob_bytes(b@));
}

/// Reads a byte string at `pos`; the second part of the result is where
/// the next value starts.
pub fn read_blob(input: &[u8], pos: usize) -> (r: Option<(Vec<u8>, usize)>)
    requires
        pos <= input@.len(),
    ensures
        match r {
            Some((b, next)) => pos <= next <= input@.len() && parse_blob(input@.skip(pos as int))
                == Some((b@, input@.skip(next as int))),
            None => parse_blob(input@.skip(pos as int)) is None,
        },
{
    match read_u64(input, pos) {
        None => None,
        Some((n, start)) => {
            if n > (input.len() - start) as u64 {
                return None;
            }
            let end = start + n as usize;
            let b = slice_to_vec(slice_subrange(input, start, end));
            proof {
                let rest = input@.skip(start as int);
                assert(rest.take(n as int) =~= b@);
                assert(rest.skip(n as int) =~= input@.skip(end as int));
            }
            Some((b, end))
        },
    }
}

// ------------------------------------------------------------------ hashes

/// Whether `b` is the image of some value of `H`.
pub open spec fn is_image<H: hash::Hash>(b: Seq<u8>) -> bool {
    exists|h: H| #[trigger] h@ == b
}

/// A hash is written as the byte string of its image.
pub open spec fn parse_hash<H: hash::Hash>(s: Seq<u8>) -> Option<(Seq<u8>, Seq<u8>)> {
    match parse_blob(s) {
        Some((b, rest)) => if is_image::<H>(b) {
            Some((b, rest))
        } else {
            None
        },
        None => None,
    }
}

/// A hash that was written is read back as it was.
pub proof fn lemma_parse_hash<H: hash::Hash>(h: H, rest: Seq<u8>)
    ensures
        parse_hash::<H>(blob_bytes(h@) + rest) == Some((h@, rest)),
{
    H::image_fits(&h);
    lemma_parse_blob(h@, rest);
    assert(is_image::<H>(h@));
}

/// Writes a hash behind what `dest` holds.
pub fn write_hash<H: hash::Hash>(dest: &mut Vec<u8>, h: &H)
    ensures
        final(dest)@ == old(dest)@ + blob_bytes(h@),
{
    let image = h.to_bytes();
    write_blob(dest, image.as_slice());
}

/// Reads a hash at `pos`; the second part of the result is where the next
/// value starts.
pub fn read_hash<H: hash::Hash>(input: &[u8], pos: usize) -> (r: Option<(H, usize)>)
    requires
        pos <= input@.len(),
    ensures
        match r {
            Some((h, next)) => pos <= next <= input@.len() && parse_hash::<H>(
                input@.skip(pos as int),
            ) == Some((h@, input@.skip(next as int))),
            None => parse_hash::<H>(input@.skip(pos as int)) is None,
        },
{
    match read_blob(input, pos) {
        None => None,
        Some((b, next)) => match H::from_bytes(b.as_slice()) {
            None => None,
            Some(h) => {
                assert(is_image::<H>(h@));
                Some((h, next))
            },
        },
    }
}

// ---------------------------------------------------------- lists of hashes

/// Every item is the image of some value of `H`.
pub open spec fn all_images<H: hash::Hash>(items: Seq<Seq<u8>>) -> bool {
    forall|i: int| 0 <= i < items.len() ==> is_image::<H>(#[trigger] items[i])
}

/// The items of a list one after another, without their number.
pub open spec fn hashes_bytes(items: Seq<Seq<u8>>) -> Seq<u8>
    decreases items.len(),
{
    if items.len() == 0 {
        Seq::empty()
    } else {
        hashes_bytes(items.drop_last()) + blob_bytes(items.last())
    }
}

/// A list of hashes: the number of its items, then the items.
pub open spec fn hash_list_bytes(items: Seq<Seq<u8>>) -> Seq<u8> {
    u64_bytes(items.len() as u64) + hashes_bytes(items)
}

/// Reads `n` hashes one after another.
pub open spec fn parse_hashes<H: hash::Hash>(n: nat, s: Seq<u8>) -> Option<
    (Seq<Seq<u8>>, Seq<u8>),
>
    decreases n,
{
    if n == 0 {
        Some((Seq::empty(), s))
    } else {
        match parse_hashes::<H>((n - 1) as nat, s) {
            None => None,
            Some((front, rest)) => match parse_hash::<H>(rest) {
                None => None,
                Some((h, after)) => Some((front.push(h), after)),
            },
        }
    }
}

/// Reads a list of hashes: a number, and then as many hashes.
pub open spec fn parse_hash_list<H: hash::Hash>(s: Seq<u8>) -> Option<(Seq<Seq<u8>>, Seq<u8>)> {
    match parse_u64(s) {
        Some((n, rest)) => parse_hashes::<H>(n as nat, rest),
        None => None,
    }
}

/// An image is short enough for its length to be written.
pub proof fn lemma_image_fits<H: hash::Hash>(b: Seq<u8>)
    requires
        is_image::<H>(b),
    ensures
        b.len() <= u64::MAX,
{
    let h = choose|h: H| #[trigger] h@ == b;
    H::image_fits(&h);
}

/// Hashes that were written one after another are read back as they were.
pub proof fn lemma_parse_hashes<H: hash::Hash>(items: Seq<Seq<u8>>, rest: Seq<u8>)
    requires
        all_images::<H>(items),
    ensures
        parse_hashes::<H>(items.len(), hashes_bytes(items) + rest) == Some((items, rest)),
    decreases items.len(),
{
    if items.len() > 0 {
        let front = items.drop_last();
        let tail = blob_bytes(items.last()) + rest;
        assert(hashes_bytes(items) + rest =~= hashes_bytes(front) + tail);
        assert forall|i: int| 0 <= i < front.len() implies is_image::<H>(#[trigger] front[i]) by {
            assert(front[i] == items[i]);
        }
        lemma_parse_hashes::<H>(front, tail);
        assert(is_image::<H>(items.last()));
        lemma_image_fits::<H>(items.last());
        lemma_parse_blob(items.last(), rest);
        assert(front.push(items.last()) =~= items);
    }
}

/// A list of hashes that was written is read back as it was.
pub proof fn lemma_parse_hash_list<H: hash::Hash>(items: Seq<Seq<u8>>, rest: Seq<u8>)
    requires
        items.len() <= u64::MAX,
        all_images::<H>(items),
    ensures
        parse_hash_list::<H>(hash_list_bytes(items) + rest) == Some((items, rest)),
{
    lemma_parse_u64(items.len() as u64, hashes_bytes(items) + rest);
    assert(hash_list_bytes(items) + rest =~= u64_bytes(items.len() as u64) + (hashes_bytes(items)
        + rest));
    lemma_parse_hashes::<H>(items, rest);
}

/// Once a prefix of the list cannot be read, no longer list can.
pub proof fn lemma_parse_hashes_fails<H: hash::Hash>(k: nat, n: nat, s: Seq<u8>)
    requires
        k <= n,
        parse_hashes::<H>(k, s) is None,
    ensures
        parse_hashes::<H>(n, s) is None,
    decreases n,
{
    if k < n {
        lemma_parse_hashes_fails::<H>(k, (n - 1) as nat, s);
    }
}

/// Writes a list of hashes behind what `dest` holds.
pub fn write_hash_list<H: hash::Hash>(dest: &mut Vec<u8>, items: &Vec<H>)
    ensures
        final(dest)@ == old(dest)@ + hash_list_bytes(keys_view(items@)),
        keys_view(items@).len() <= u64::MAX,
        all_images::<H>(keys_view(items@)),
{
    write_u64(dest, items.len() as u64);
    let ghost start = dest@;
    let ghost all = keys_view(items@);
    let mut i: usize = 0;
    while i < items.len()
        invariant
            i <= items.len(),
            all == keys_view(items@),
            dest@ == start + hashes_bytes(all.take(i as int)),
        decreases items.len() - i,
    {
        write_hash(dest, &items[i]);
        proof {
            let done = all.take(i + 1);
            assert(done.drop_last() =~= all.take(i as int));
            assert(done.last() == items@[i as int]@);
            assert(dest@ =~= start + hashes_bytes(done));
        }
        i += 1;
    }
    assert(all.take(i as int) =~= all);
    assert(dest@ =~= old(dest)@ + hash_list_bytes(all));
    assert forall|j: int| 0 <= j < all.len() implies is_image::<H>(#[trigger] all[j]) by {
        assert(items@[j]@ == all[j]);
    }
}

/// Reads a list of hashes at `pos`; the second part of the result is where
/// the next value starts.
pub fn read_hash_list<H: hash::Hash>(input: &[u8], pos: usize) -> (r: Option<(Vec<H>, usize)>)
    requires
        pos <= input@.len(),
    ensures
        match r {
            Some((items, next)) => pos <= next <= input@.len() && parse_hash_list::<H>(
                input@.skip(pos as int),
            ) == Some((keys_view(items@), input@.skip(next as int))),
            None => parse_hash_list::<H>(input@.skip(pos as int)) is None,
        },
{
    let (n, start) = match read_u64(input, pos) {
        None => { return None; },
        Some(p) => p,
    };
    let ghost body = input@.skip(start as int);
    let mut items: Vec<H> = Vec::new();
    let mut at: usize = start;
    let mut i: u64 = 0;
    assert(keys_view(items@) =~= Seq::empty());
    while i < n
        invariant
            i <= n,
            start <= at <= input@.len(),
            body == input@.skip(start as int),
            parse_u64(input@.skip(pos as int)) == Some((n, body)),
            parse_hashes::<H>(i as nat, body) == Some(
                (keys_view(items@), input@.skip(at as int)),
            ),
        decreases n - i,
    {
        let ghost before = keys_view(items@);
        match read_hash::<H>(input, at) {
            None => {
                proof {
                    lemma_parse_hashes_fails::<H>(i as nat + 1, n as nat, body);
                }
                return None;
            },
            Some((h, next)) => {
                items.push(h);
                at = next;
                assert(keys_view(items@) =~= before.push(h@));
            },
        }
        i += 1;
    }
    Some((items, at))
}

// ---------------------------------------------------------- lists of inserts

/// An insert: its key as a hash, then its value as a byte string.
pub open spec fn pair_bytes(p: (Seq<u8>, Seq<u8>)) -> Seq<u8> {
    blob_bytes(p.0) + blob_bytes(p.1)
}

/// Reads an insert: a key, then a value.
pub open spec fn parse_pair<K: hash::Hash>(s: Seq<u8>) -> Option<((Seq<u8>, Seq<u8>), Seq<u8>)> {
    match parse_hash::<K>(s) {
        None => None,
        Some((k, rest)) => match parse_blob(rest) {
            None => None,
            Some((v, after)) => Some(((k, v), after)),
        },
    }
}

/// An insert whose key is an image and whose value is short enough for its
/// length to be written.
pub open spec fn pair_fits<K: hash::Hash>(p: (Seq<u8>, Seq<u8>)) -> bool {
    is_image::<K>(p.0) && p.1.len() <= u64::MAX
}

/// An insert that was written is read back as it was.
pub proof fn lemma_parse_pair<K: hash::Hash>(p: (Seq<u8>, Seq<u8>), rest: Seq<u8>)
    requires
        pair_fits::<K>(p),
    ensures
        parse_pair::<K>(pair_bytes(p) + rest) == Some((p, rest)),
{
    assert(pair_bytes(p) + rest =~= blob_bytes(p.0) + (blob_bytes(p.1) + rest));
    lemma_image_fits::<K>(p.0);
    lemma_parse_blob(p.0, blob_bytes(p.1) + rest);
    lemma_parse_blob(p.1, rest);
}

/// The inserts of a list one after another, without their number.
pub open spec fn pairs_bytes(items: Seq<(Seq<u8>, Seq<u8>)>) -> Seq<u8>
    decreases items.len(),
{
    if items.len() == 0 {
        Seq::empty()
    } else {
        pairs_bytes(items.drop_last()) + pair_bytes(items.last())
    }
}

/// A list of inserts: the number of its items, then the items.
pub open spec fn pair_list_bytes(items: Seq<(Seq<u8>, Seq<u8>)>) -> Seq<u8> {
    u64_bytes(items.len() as u64) + pairs_bytes(items)
}

/// Reads `n` inserts one after another.
pub open spec fn parse_pairs<K: hash::Hash>(n: nat, s: Seq<u8>) -> Option<
    (Seq<(Seq<u8>, Seq<u8>)>, Seq<u8>),
>
    decreases n,
{
    if n == 0 {
        Some((Seq::empty(), s))
    } else {
        match parse_pairs::<K>((n - 1) as nat, s) {
            None => None,
            Some((front, rest)) => match parse_pair::<K>(rest) {
                None => None,
                Some((p, after)) => Some((front.push(p), after)),
            },
        }
    }
}

/// Reads a list of inserts: a number, and then as many inserts.
pub open spec fn parse_pair_list<K: hash::Hash>(s: Seq<u8>) -> Option<
    (Seq<(Seq<u8>, Seq<u8>)>, Seq<u8>),
> {
    match parse_u64(s) {
        Some((n, rest)) => parse_pairs::<K>(n as nat, rest),
        None => None,
    }
}

/// A list of inserts that can be written: it is short enough for the
/// number of its items to be written, and so is each of its values.
pub open spec fn pairs_fit<K: hash::Hash>(items: Seq<(Seq<u8>, Seq<u8>)>) -> bool {
    &&& items.len() <= u64::MAX
    &&& forall|i: int| 0 <= i < items.len() ==> pair_fits::<K>(#[trigger] items[i])
}

/// Inserts that were written one after another are read back as they were.
pub proof fn lemma_parse_pairs<K: hash::Hash>(items: Seq<(Seq<u8>, Seq<u8>)>, rest: Seq<u8>)
    requires
        pairs_fit::<K>(items),
    ensures
        parse_pairs::<K>(items.len(), pairs_bytes(items) + rest) == Some((items, rest)),
    decreases items.len(),
{
    if items.len() > 0 {
        let front = items.drop_last();
        let tail = pair_bytes(items.last()) + rest;
        assert(pairs_bytes(items) + rest =~= pairs_bytes(front) + tail);
        assert forall|i: int| 0 <= i < front.len() implies pair_fits::<K>(#[trigger] front[i]) by {
            assert(front[i] == items[i]);
        }
        lemma_parse_pairs::<K>(front, tail);
        assert(pair_fits::<K>(items.last()));
        lemma_parse_pair::<K>(items.last(), rest);
        assert(front.push(items.last()) =~= items);
    }
}

/// A list of inserts that was written is read back as it was.
pub proof fn lemma_parse_pair_list<K: hash::Hash>(items: Seq<(Seq<u8>, Seq<u8>)>, rest: Seq<u8>)
    requires
        pairs_fit::<K>(items),
    ensures
        parse_pair_list::<K>(pair_list_bytes(items) + rest) == Some((items, rest)),
{
    lemma_parse_u64(items.len() as u64, pairs_bytes(items) + rest);
    assert(pair_list_bytes(items) + rest =~= u64_bytes(items.len() as u64) + (pairs_bytes(items)
        + rest));
    lemma_parse_pairs::<K>(items, rest);
}

/// Once a prefix of the list cannot be read, no longer list can.
pub proof fn lemma_parse_pairs_fails<K: hash::Hash>(k: nat, n: nat, s: Seq<u8>)
    requires
        k <= n,
        parse_pairs::<K>(k, s) is None,
    ensures
        parse_pairs::<K>(n, s) is None,
    decreases n,
{
    if k < n {
        lemma_parse_pairs_fails::<K>(k, (n - 1) as nat, s);
    }
}

/// Writes a list of inserts behind what `dest` holds.
pub fn write_pair_list<K: hash::Hash>(dest: &mut Vec<u8>, items: &Vec<(K, DBValue)>)
    ensures
        final(dest)@ == old(dest)@ + pair_list_bytes(pairs_view(items@)),
        pairs_fit::<K>(pairs_view(items@)),
{
    write_u64(dest, items.len() as u64);
    let ghost start = dest@;
    let ghost all = pairs_view(items@);
    let mut i: usize = 0;
    while i < items.len()
        invariant
            i <= items.len(),
            all == pairs_view(items@),
            dest@ == start + pairs_bytes(all.take(i as int)),
        decreases items.len() - i,
    {
        let ghost before = dest@;
        write_hash(dest, &items[i].0);
        write_blob(dest, items[i].1.as_slice());
        proof {
            let done = all.take(i + 1);
            assert(done.drop_last() =~= all.take(i as int));
            assert(done.last() == (items@[i as int].0@, items@[i as int].1@));
            assert(dest@ =~= before + pair_bytes(done.last()));
            assert(dest@ =~= start + pairs_bytes(done));
        }
        i += 1;
    }
    assert(all.take(i as int) =~= all);
    assert(dest@ =~= old(dest)@ + pair_list_bytes(all));
    assert forall|j: int| 0 <= j < all.len() implies pair_fits::<K>(#[trigger] all[j]) by {
        assert(all[j] == (items@[j].0@, items@[j].1@));
        assert(is_image::<K>(items@[j].0@));
        assert(items@[j].1@.len() == items@[j].1.len());
    }
}

/// Reads a list of inserts at `pos`; the second part of the result is
/// where the next value starts.
pub fn read_pair_list<K: hash::Hash>(input: &[u8], pos: usize) -> (r: Option<
    (Vec<(K, DBValue)>, usize),
>)
    requires
        pos <= input@.len(),
    ensures
        match r {
            Some((items, next)) => pos <= next <= input@.len() && parse_pair_list::<K>(
                input@.skip(pos as int),
            ) == Some((pairs_view(items@), input@.skip(next as int))),
            None => parse_pair_list::<K>(input@.skip(pos as int)) is None,
        },
{
    let (n, start) = match read_u64(input, pos) {
        None => { return None; },
        Some(p) => p,
    };
    let ghost body = input@.skip(start as int);
    let mut items: Vec<(K, DBValue)> = Vec::new();
    let mut at: usize = start;
    let mut i: u64 = 0;
    assert(pairs_view(items@) =~= Seq::empty());
    while i < n
        invariant
            i <= n,
            start <= at <= input@.len(),
            body == input@.skip(start as int),
            parse_u64(input@.skip(pos as int)) == Some((n, body)),
            parse_pairs::<K>(i as nat, body) == Some(
                (pairs_view(items@), input@.skip(at as int)),
            ),
        decreases n - i,
    {
        let ghost before = pairs_view(items@);
        let (k, mid) = match read_hash::<K>(input, at) {
            None => {
                proof {
                    lemma_parse_pairs_fails::<K>(i as nat + 1, n as nat, body);
                }
                return None;
            },
            Some(p) => p,
        };
        let (v, next) = match read_blob(input, mid) {
            None => {
                proof {
                    lemma_parse_pairs_fails::<K>(i as nat + 1, n as nat, body);
                }
                return None;
            },
            Some(p) => p,
        };
        items.push((k, v));
        at = next;
        assert(pairs_view(items@) =~= before.push((k@, v@)));
        i += 1;
    }
    Some((items, at))
}

} // verus!
