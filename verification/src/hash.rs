//! Identifiers of blocks and keys of the store.

use vstd::bytes::{
    lemma_auto_spec_u64_to_from_le_bytes, spec_u64_from_le_bytes, spec_u64_to_le_bytes,
    u64_from_le_bytes, u64_to_le_bytes,
};
use vstd::prelude::*;
use vstd::slice::{slice_subrange, slice_to_vec};

verus! {

/// What the window asks of a block hash and of a key of the store: a value
/// that can be compared, copied, and written as bytes and read back.
///
/// The view of a value is its byte image, the bytes that stand for it on
/// disk. The window tells values apart by their images alone.
///
/// Whoever implements the trait owes the proof that the methods do what they
/// say; the windows of this crate are proved from nothing else.
pub trait Hash: Sized + View<V = Seq<u8>> {
    /// An image is short enough for its length to be written as a number.
    proof fn image_fits(a: &Self)
        ensures
            a@.len() <= u64::MAX,
    ;

    /// The image of the value.
    fn to_bytes(&self) -> (bytes: Vec<u8>)
        ensures
            bytes@ == self@,
    ;

    /// Reads a value back from its image; `None` when the bytes are the image
    /// of no value.
    fn from_bytes(bytes: &[u8]) -> (value: Option<Self>)
        ensures
            match value {
                Some(v) => v@ == bytes@,
                None => forall|v: Self| v@ != bytes@,
            },
    ;

    /// Whether both values have the same image.
    fn same(&self, other: &Self) -> (eq: bool)
        ensures
            eq == (self@ == other@),
    ;

    /// A value with the same image.
    fn duplicate(&self) -> (copy: Self)
        ensures
            copy@ == self@,
    ;
}

/// Byte strings are their own images.
impl Hash for Vec<u8> {
    proof fn image_fits(a: &Self) {
        assert(a@.len() == a.len());
    }

    fn to_bytes(&self) -> (bytes: Vec<u8>) {
        slice_to_vec(self.as_slice())
    }

    fn from_bytes(bytes: &[u8]) -> (value: Option<Self>) {
        Some(slice_to_vec(bytes))
    }

    fn same(&self, other: &Self) -> (eq: bool) {
        if self.len() != other.len() {
            return false;
        }
        let mut i: usize = 0;
        while i < self.len()
            invariant
                i <= self.len(),
                self.len() == other.len(),
                forall|j: int| 0 <= j < i ==> self@[j] == other@[j],
            decreases self.len() - i,
        {
            if self[i] != other[i] {
                return false;
            }
            i += 1;
        }
        assert(self@ =~= other@);
        true
    }

    fn duplicate(&self) -> (copy: Self) {
        slice_to_vec(self.as_slice())
    }
}

/// A 256-bit value, held as four 64-bit limbs, lowest first.
#[derive(Clone, Copy, Debug, PartialEq, Eq, Structural, Hash, Default)]
pub struct H256 {
    pub w0: u64,
    pub w1: u64,
    pub w2: u64,
    pub w3: u64,
}

impl H256 {
    /// The 32 bytes of the value, little-endian.
    pub open spec fn bytes(self) -> Seq<u8> {
        spec_u64_to_le_bytes(self.w0) + spec_u64_to_le_bytes(self.w1)
            + spec_u64_to_le_bytes(self.w2) + spec_u64_to_le_bytes(self.w3)
    }

    /// The value whose lowest limb is `low` and whose other limbs are zero.
    pub fn from_low_u64(low: u64) -> (h: H256)
        ensures
            h == (H256 { w0: low, w1: 0, w2: 0, w3: 0 }),
    {
        H256 { w0: low, w1: 0, w2: 0, w3: 0 }
    }

    /// The 32 bytes of the value.
    pub fn to_vec(&self) -> (bytes: Vec<u8>)
        ensures
            bytes@ == self.bytes(),
            bytes@.len() == 32,
    {
        let mut out = u64_to_le_bytes(self.w0);
        let mut b1 = u64_to_le_bytes(self.w1);
        let mut b2 = u64_to_le_bytes(self.w2);
        let mut b3 = u64_to_le_bytes(self.w3);
        out.append(&mut b1);
        out.append(&mut b2);
        out.append(&mut b3);
        out
    }

    /// The limbs can be read back from the bytes.
    pub proof fn lemma_bytes_limbs(self)
        ensures
            self.bytes().len() == 32,
            spec_u64_from_le_bytes(self.bytes().subrange(0, 8)) == self.w0,
            spec_u64_from_le_bytes(self.bytes().subrange(8, 16)) == self.w1,
            spec_u64_from_le_bytes(self.bytes().subrange(16, 24)) == self.w2,
            spec_u64_from_le_bytes(self.bytes().subrange(24, 32)) == self.w3,
    {
        lemma_auto_spec_u64_to_from_le_bytes();
        let b = self.bytes();
        assert(b.subrange(0, 8) =~= spec_u64_to_le_bytes(self.w0));
        assert(b.subrange(8, 16) =~= spec_u64_to_le_bytes(self.w1));
        assert(b.subrange(16, 24) =~= spec_u64_to_le_bytes(self.w2));
        assert(b.subrange(24, 32) =~= spec_u64_to_le_bytes(self.w3));
    }
}

impl From<u64> for H256 {
    fn from(low: u64) -> (h: H256) {
        H256::from_low_u64(low)
    }
}

impl vstd::std_specs::convert::FromSpecImpl<u64> for H256 {
    open spec fn obeys_from_spec() -> bool {
        true
    }

    open spec fn from_spec(low: u64) -> H256 {
        H256 { w0: low, w1: 0, w2: 0, w3: 0 }
    }
}

impl View for H256 {
    type V = Seq<u8>;

    open spec fn view(&self) -> Seq<u8> {
        self.bytes()
    }
}

impl Hash for H256 {
    proof fn image_fits(a: &Self) {
        a.lemma_bytes_limbs();
    }

    fn to_bytes(&self) -> (bytes: Vec<u8>) {
        self.to_vec()
    }

    fn from_bytes(bytes: &[u8]) -> (value: Option<Self>) {
        if bytes.len() != 32 {
            proof {
                assert forall|v: Self| v@ != bytes@ by {
                    v.lemma_bytes_limbs();
                }
            }
            return None;
        }
        let l0 = u64_from_le_bytes(slice_subrange(bytes, 0, 8));
        let l1 = u64_from_le_bytes(slice_subrange(bytes, 8, 16));
        let l2 = u64_from_le_bytes(slice_subrange(bytes, 16, 24));
        let l3 = u64_from_le_bytes(slice_subrange(bytes, 24, 32));
        let h = H256 { w0: l0, w1: l1, w2: l2, w3: l3 };
        proof {
            lemma_auto_spec_u64_to_from_le_bytes();
            assert(h.bytes() =~= bytes@.subrange(0, 8) + bytes@.subrange(8, 16)
                + bytes@.subrange(16, 24) + bytes@.subrange(24, 32));
            assert(h.bytes() =~= bytes@);
        }
        Some(h)
    }

    fn same(&self, other: &Self) -> (eq: bool) {
        proof {
            self.lemma_bytes_limbs();
            other.lemma_bytes_limbs();
        }
        self.w0 == other.w0 && self.w1 == other.w1
            && self.w2 == other.w2 && self.w3 == other.w3
    }

    fn duplicate(&self) -> (copy: Self) {
        *self
    }
}

} // verus!
